//! Display text for opcode identities and feature identifiers.
//!
//! The text comes from the decoder crate's fixed instruction tables, so each
//! function's result depends on its argument alone; the results are named
//! here and every contract above speaks of those names.

use vstd::prelude::*;

verus! {

/// The display name of feature identifier `f`, as the decoder's tables spell
/// it; empty for an identifier outside the tables.
pub uninterp spec fn feature_name_of(f: u32) -> Seq<char>;

/// The instruction-text form of opcode identity `c`; empty for an identity
/// outside the tables.
pub uninterp spec fn instr_text_of(c: u32) -> Seq<char>;

/// The opcode-syntax form of opcode identity `c`; empty for an identity
/// outside the tables.
pub uninterp spec fn opcode_text_of(c: u32) -> Seq<char>;

/// Relies on iced_x86::CpuidFeature's Debug impl, which reads the name from
/// a fixed table indexed by the identifier.
#[verifier::external_body]
pub(crate) fn feature_name(f: u32) -> (r: String)
    ensures
        r@ == feature_name_of(f),
{
    match iced_x86::CpuidFeature::try_from(f as usize) {
        Ok(c) => format!("{:?}", c),
        Err(_) => String::new(),
    }
}

/// Relies on iced_x86::Code::op_code and OpCodeInfo::instruction_string,
/// which read a fixed per-identity table entry.
#[verifier::external_body]
pub(crate) fn instr_text(c: u32) -> (r: String)
    ensures
        r@ == instr_text_of(c),
{
    match iced_x86::Code::try_from(c as usize) {
        Ok(code) => code.op_code().instruction_string().to_string(),
        Err(_) => String::new(),
    }
}

/// Relies on iced_x86::Code::op_code and OpCodeInfo::op_code_string,
/// which read a fixed per-identity table entry.
#[verifier::external_body]
pub(crate) fn opcode_text(c: u32) -> (r: String)
    ensures
        r@ == opcode_text_of(c),
{
    match iced_x86::Code::try_from(c as usize) {
        Ok(code) => code.op_code().op_code_string().to_string(),
        Err(_) => String::new(),
    }
}

} // verus!
