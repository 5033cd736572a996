pub mod ast;
pub mod ctx;
pub mod typ;
pub mod parse;
pub mod show;
pub mod typck;

pub use ast::Expression;
pub use ctx::TypeContext;
pub use parse::{parse, ParseContext, ParseError, Token, TokenKind};
pub use typck::{generalize, infer, instantiate, occurs, unify, TypeError};
pub use typ::{MonoType, PolyType, VarType};
