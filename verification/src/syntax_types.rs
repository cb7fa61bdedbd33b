//! The types of `regex-syntax`'s syntax tree that the reading of a pattern
//! passes through; Verus sees none of their contents.
use vstd::prelude::*;
use regex_syntax::ast;

verus! {

#[verifier::external_type_specification]
#[verifier::external_body]
pub struct ExAst(ast::Ast);

#[verifier::external_type_specification]
#[verifier::external_body]
pub struct ExAstError(ast::Error);

#[verifier::external_type_specification]
#[verifier::external_body]
pub struct ExAstRepetitionKind(ast::RepetitionKind);

#[verifier::external_type_specification]
#[verifier::external_body]
pub struct ExAstClassUnicode(ast::ClassUnicode);

#[verifier::external_type_specification]
#[verifier::external_body]
pub struct ExAstClassPerl(ast::ClassPerl);

#[verifier::external_type_specification]
#[verifier::external_body]
pub struct ExAstClassAscii(ast::ClassAscii);

#[verifier::external_type_specification]
#[verifier::external_body]
pub struct ExAstClassBracketed(ast::ClassBracketed);

#[verifier::external_type_specification]
#[verifier::external_body]
pub struct ExAstClassSet(ast::ClassSet);

#[verifier::external_type_specification]
#[verifier::external_body]
pub struct ExAstClassSetItem(ast::ClassSetItem);

#[verifier::external_type_specification]
#[verifier::external_body]
pub struct ExAstClassSetBinaryOpKind(ast::ClassSetBinaryOpKind);

} // verus!
