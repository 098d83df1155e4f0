//! Loading a module's data segments from its raw bytes, and the whole
//! pipeline from index tokens and module bytes to a write plan.

use vstd::prelude::*;
use crate::digits::digits_val;
use crate::router::{plan, plan_matches, output_view, WriteAction};
use crate::selector::{parse_indices, is_index_token, strictly_ascending, tokens_valid, SelectError};

verus! {

/// The data-segment payloads that decoding `bytes` as a binary module
/// yields, in the module's segment order; `None` when the bytes are not a
/// well-formed module. Decoding is a function of the bytes alone.
pub uninterp spec fn segments_of(bytes: Seq<u8>) -> Option<Seq<Seq<u8>>>;

/// Relies on `walrus::ModuleConfig::parse` with the default configuration:
/// decoding an in-memory module is deterministic in the bytes, and the
/// module's data segments, iterated in order, each expose their payload in
/// their `value` field. The error text is the decoder's own report.
#[verifier::external_body]
fn parse_segments(bytes: &Vec<u8>) -> (r: Result<Vec<Vec<u8>>, String>)
    ensures
        r is Ok <==> segments_of(bytes@) is Some,
        r matches Ok(segs) ==> segs.deep_view() == segments_of(bytes@).unwrap(),
{
    match walrus::ModuleConfig::new().parse(bytes) {
        Ok(module) => Ok(module.data.iter().map(|d| d.value.clone()).collect()),
        Err(e) => Err(format!("{e:#?}")),
    }
}

/// The actions are a write plan for the requested-index set canonical to
/// the tokens: some ascending, duplicate-free sequence holding exactly the
/// token values (there is only one such sequence) whose plan against the
/// segments and output base path the actions match.
pub open spec fn planned_for_tokens(
    acts: Seq<WriteAction>,
    segs: Seq<Seq<u8>>,
    toks: Seq<Seq<char>>,
    output: Option<Seq<char>>,
) -> bool {
    exists|ids: Seq<usize>|
        {
            &&& strictly_ascending(ids)
            &&& (forall|v: usize| ids.contains(v) <==> exists|j: int|
                0 <= j < toks.len() && digits_val(#[trigger] toks[j]) == v as nat)
            &&& #[trigger] plan_matches(acts, segs, ids, output)
        }
}

/// Why no write plan could be produced.
pub enum ExtractError {
    /// A token is not a decimal non-negative integer in range; holds the
    /// first offending token.
    InvalidIndex(String),
    /// The token list was empty, so no index was requested.
    NoIndices,
    /// The bytes are not a well-formed module; holds the decoder's report.
    BadModule(String),
}

/// The whole pipeline: the selector turns the tokens into the canonical
/// requested-index set, the bytes are decoded into their data segments, and
/// the plan pairs every requested index that has a segment with its payload
/// and destination. `Ok` exactly when the tokens form a non-empty list of
/// valid indices and the bytes decode; each error names the first rule
/// broken, with selector errors found before the module is looked at.
pub fn extract_plan(bytes: &Vec<u8>, tokens: &Vec<String>, output: Option<&String>) -> (r: Result<
    Vec<WriteAction>,
    ExtractError,
>)
    ensures
        r is Ok <==> tokens_valid(tokens.deep_view()) && segments_of(bytes@) is Some,
        r matches Ok(acts) ==> planned_for_tokens(
            acts@,
            segments_of(bytes@).unwrap(),
            tokens.deep_view(),
            output_view(output),
        ),
        r matches Err(e) ==> match e {
            ExtractError::InvalidIndex(t) => exists|j: int|
                {
                    &&& 0 <= j < tokens.deep_view().len()
                    &&& !is_index_token(#[trigger] tokens.deep_view()[j])
                    &&& t@ == tokens.deep_view()[j]
                    &&& forall|k: int| 0 <= k < j ==> is_index_token(
                        #[trigger] tokens.deep_view()[k],
                    )
                },
            ExtractError::NoIndices => tokens.deep_view().len() == 0,
            ExtractError::BadModule(_) => tokens_valid(tokens.deep_view()) && segments_of(bytes@)
                is None,
        },
{
    let ids = match parse_indices(tokens) {
        Ok(ids) => ids,
        Err(SelectError::InvalidIndex(t)) => {
            return Err(ExtractError::InvalidIndex(t));
        },
        Err(SelectError::NoIndices) => {
            return Err(ExtractError::NoIndices);
        },
    };
    let segments = match parse_segments(bytes) {
        Ok(segments) => segments,
        Err(report) => {
            return Err(ExtractError::BadModule(report));
        },
    };
    let acts = plan(&segments, &ids, output);
    proof {
        assert(plan_matches(acts@, segments_of(bytes@).unwrap(), ids@, output_view(output)));
        assert(planned_for_tokens(
            acts@,
            segments_of(bytes@).unwrap(),
            tokens.deep_view(),
            output_view(output),
        ));
    }
    Ok(acts)
}

} // verus!
