//! Due-date validity for display: a due date is free text, held against
//! the fixed day.month.year calendar pattern only to colour the field.
//! The codec stores the text as typed whether or not it is a valid date.

use vstd::prelude::*;

verus! {

/// Whether chrono accepts the text as a calendar date in the fixed
/// day.month.year pattern; a function of the text alone.
pub uninterp spec fn chrono_datum_gueltig(s: Seq<char>) -> bool;

/// Relies on chrono's NaiveDate::parse_from_str with the `%d.%m.%Y`
/// pattern: parsing is deterministic in the input text, and out-of-bound
/// dates are errors.
#[verifier::external_body]
fn datum_erkannt(s: &str) -> (r: bool)
    ensures
        r == chrono_datum_gueltig(s@),
{
    chrono::NaiveDate::parse_from_str(s, "%d.%m.%Y").is_ok()
}

/// A due-date field counts as valid for display when it is empty or
/// holds a valid calendar date in day.month.year notation.
pub open spec fn bis_gueltig_spec(s: Seq<char>) -> bool {
    s.len() == 0 || chrono_datum_gueltig(s)
}

/// Tests a due-date field for display purposes. An invalid date is only
/// flagged; it is never rejected from the document or the codec.
pub fn bis_datum_gueltig(s: &str) -> (r: bool)
    ensures
        r == bis_gueltig_spec(s@),
{
    s.is_empty() || datum_erkannt(s)
}

/// The decoder stores the due-date cell of a table row as typed: the
/// value is taken verbatim from the fifth cell, with no validity check.
pub proof fn lemma_bis_wie_getippt(zellen: Seq<Seq<char>>)
    requires
        zellen.len() >= 5,
    ensures
        crate::codec::eintrag_aus(zellen).bis == zellen[4],
{
}

} // verus!
