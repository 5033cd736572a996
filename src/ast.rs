use vstd::prelude::*;

verus! {

/// An expression of the source language.
#[derive(Debug, PartialEq, Eq)]
pub enum Expression {
    /// A variable.
    Var { name: String },
    /// The application `e0 e1`.
    App { e0: Box<Expression>, e1: Box<Expression> },
    /// The abstraction `\name. e`.
    Abs { name: String, e: Box<Expression> },
    /// `let name = e0 in e1`.
    Let { name: String, e0: Box<Expression>, e1: Box<Expression> },
    True,
    False,
}

/// An expression as a value: names as their chars.
pub enum ExprView {
    Var(Seq<char>),
    App(Box<ExprView>, Box<ExprView>),
    Abs(Seq<char>, Box<ExprView>),
    Let(Seq<char>, Box<ExprView>, Box<ExprView>),
    True,
    False,
}

impl Expression {
    pub open spec fn value(self) -> ExprView
        decreases self,
    {
        match self {
            Expression::Var { name } => ExprView::Var(name@),
            Expression::App { e0, e1 } => ExprView::App(Box::new(e0.value()), Box::new(e1.value())),
            Expression::Abs { name, e } => ExprView::Abs(name@, Box::new(e.value())),
            Expression::Let { name, e0, e1 } => ExprView::Let(
                name@,
                Box::new(e0.value()),
                Box::new(e1.value()),
            ),
            Expression::True => ExprView::True,
            Expression::False => ExprView::False,
        }
    }
}

} // verus!
