pub mod canonical;
pub mod cascade;
pub mod color;
pub mod number;
pub mod parser;
pub mod parser_spec;
pub mod selector;
pub mod style_props;
pub mod styler;
pub mod token;
pub mod token_spec;
