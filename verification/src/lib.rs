pub mod bunsetsu;
pub mod csv_parser;
pub mod dict_info;
pub mod grammar;
pub mod lexer;
pub mod matcher;
pub mod msg;
pub mod node;
pub mod pack;
pub mod parser;
pub mod positions;
pub mod prefer;
pub mod syntax;
pub mod text;
pub mod token;
pub mod traces;
