//! The extractor/router: pairs each requested index with the segment at that
//! position, resolves a destination for every pair, and describes the status
//! line reported for it. Everything here is pure; the caller performs the
//! writes in the order of the returned plan.

use vstd::prelude::*;
use crate::digits::dec_digits;
use crate::digits::to_decimal;
use crate::selector::strictly_ascending;

verus! {

/// The pairs (i, segs[i]) for every requested index i that has a segment,
/// in request order.
pub open spec fn selection(segs: Seq<Seq<u8>>, ids: Seq<usize>) -> Seq<(usize, Seq<u8>)>
    decreases ids.len(),
{
    if ids.len() == 0 {
        Seq::empty()
    } else {
        let rest = selection(segs, ids.drop_last());
        let i = ids.last();
        if (i as int) < segs.len() {
            rest.push((i, segs[i as int]))
        } else {
            rest
        }
    }
}

/// The selection is exactly the pairs (i, segs[i]) for the requested indices
/// below the segment count: every pair comes from such an index, every such
/// index yields a pair, and the pairs are in ascending index order. Requested
/// indices at or past the segment count contribute nothing.
pub proof fn lemma_selection_exact(segs: Seq<Seq<u8>>, ids: Seq<usize>)
    requires
        strictly_ascending(ids),
    ensures
        ({
            let sel = selection(segs, ids);
            &&& forall|k: int| 0 <= k < sel.len() ==> {
                &&& (#[trigger] sel[k].0 as int) < segs.len()
                &&& ids.contains(sel[k].0)
                &&& sel[k].1 == segs[sel[k].0 as int]
            }
            &&& forall|i: usize| ids.contains(i) && (i as int) < segs.len()
                ==> exists|k: int| 0 <= k < sel.len() && (#[trigger] sel[k].0) == i
            &&& forall|k1: int, k2: int| 0 <= k1 < k2 < sel.len() ==> sel[k1].0 < sel[k2].0
        }),
    decreases ids.len(),
{
    if ids.len() > 0 {
        let prefix = ids.drop_last();
        let last = ids.last();
        let rest = selection(segs, prefix);
        let sel = selection(segs, ids);
        assert(strictly_ascending(prefix)) by {
            assert forall|a: int, b: int| 0 <= a < b < prefix.len() implies prefix[a] < prefix[b] by {
                assert(ids[a] < ids[b]);
            }
        }
        lemma_selection_exact(segs, prefix);
        assert forall|k: int| 0 <= k < sel.len() implies {
            &&& (#[trigger] sel[k].0 as int) < segs.len()
            &&& ids.contains(sel[k].0)
            &&& sel[k].1 == segs[sel[k].0 as int]
        } by {
            if k < rest.len() {
                assert(sel[k] == rest[k]);
                let j = choose|j: int| 0 <= j < prefix.len() && prefix[j] == rest[k].0;
                assert(ids[j] == rest[k].0);
            } else {
                assert(sel[k] == (last, segs[last as int]));
                assert(ids[ids.len() - 1] == last);
            }
        }
        assert forall|i: usize| ids.contains(i) && (i as int) < segs.len()
            implies exists|k: int| 0 <= k < sel.len() && (#[trigger] sel[k].0) == i by {
            let j = choose|j: int| 0 <= j < ids.len() && ids[j] == i;
            if j < ids.len() - 1 {
                assert(prefix[j] == i);
                assert(prefix.contains(i));
                let k = choose|k: int| 0 <= k < rest.len() && rest[k].0 == i;
                assert(sel[k].0 == i);
            } else {
                if (last as int) < segs.len() {
                    assert(sel[sel.len() - 1].0 == last);
                }
            }
        }
        assert forall|k1: int, k2: int| 0 <= k1 < k2 < sel.len() implies sel[k1].0 < sel[k2].0 by {
            if (last as int) < segs.len() && k2 == sel.len() - 1 {
                assert(sel[k1] == rest[k1]);
                assert(rest.contains(rest[k1]));
                assert(prefix.contains(rest[k1].0));
                let j = choose|j: int| 0 <= j < prefix.len() && prefix[j] == rest[k1].0;
                assert(ids[j] < last);
            } else {
                assert(sel[k1] == rest[k1] && sel[k2] == rest[k2]);
            }
        }
    }
}

/// The pairs of the selection as values: the index and a copy of the
/// segment's bytes, in request order.
pub fn select(segments: &Vec<Vec<u8>>, ids: &Vec<usize>) -> (r: Vec<(usize, Vec<u8>)>)
    ensures
        ({
            let sel = selection(segments.deep_view(), ids@);
            &&& r@.len() == sel.len()
            &&& forall|k: int| 0 <= k < sel.len() ==> (#[trigger] r@[k]).0 == sel[k].0
                && r@[k].1@ == sel[k].1
        }),
{
    let ghost segs = segments.deep_view();
    let mut r: Vec<(usize, Vec<u8>)> = Vec::new();
    let mut j: usize = 0;
    while j < ids.len()
        invariant
            0 <= j <= ids@.len(),
            segs == segments.deep_view(),
            segs.len() == segments@.len(),
            forall|k: int| 0 <= k < segs.len() ==> segs[k] == segments@[k]@,
            r@.len() == selection(segs, ids@.take(j as int)).len(),
            forall|k: int| 0 <= k < r@.len() ==> (#[trigger] r@[k]).0 == selection(
                segs,
                ids@.take(j as int),
            )[k].0 && r@[k].1@ == selection(segs, ids@.take(j as int))[k].1,
        decreases ids@.len() - j,
    {
        proof {
            assert(ids@.take(j + 1).drop_last() =~= ids@.take(j as int));
            assert(ids@.take(j + 1).last() == ids@[j as int]);
        }
        let i = ids[j];
        if i < segments.len() {
            let payload = copy_bytes(&segments[i]);
            r.push((i, payload));
        }
        j = j + 1;
    }
    proof {
        assert(ids@.take(ids@.len() as int) =~= ids@);
    }
    r
}

/// Where one payload goes: the shared standard-output stream, or a file at
/// the resolved path.
pub enum OutputTarget {
    Stdout,
    File(String),
}

/// One step of the write plan: the segment's index, a copy of its payload,
/// and the destination resolved for it.
pub struct WriteAction {
    pub index: usize,
    pub payload: Vec<u8>,
    pub target: OutputTarget,
}

/// The destination owed to a pair, given the output base path (if any), the
/// number of pairs in the whole selection, and the pair's segment index:
/// no base path routes to standard output; a base path names the file, with
/// a `.{index}` suffix exactly when the selection has more than one pair.
pub open spec fn target_resolved(
    t: OutputTarget,
    output: Option<Seq<char>>,
    count: nat,
    index: usize,
) -> bool {
    match output {
        None => t is Stdout,
        Some(base) => t matches OutputTarget::File(p) && p@ == (if count == 1 {
            base
        } else {
            base + "."@ + dec_digits(index as nat)
        }),
    }
}

/// The base path view of an optional output path argument.
pub open spec fn output_view(output: Option<&String>) -> Option<Seq<char>> {
    match output {
        None => None,
        Some(base) => Some(base@),
    }
}

/// The base path with a `.{index}` suffix.
pub fn suffixed_path(base: &String, index: usize) -> (r: String)
    ensures
        r@ == base@ + "."@ + dec_digits(index as nat),
{
    let mut r = String::from_str(base.as_str());
    r.append(".");
    let d = to_decimal(index);
    r.append(d.as_str());
    r
}

/// The status line reported for a selected segment.
pub open spec fn status_line_spec(index: nat, len: nat) -> Seq<char> {
    "data "@ + dec_digits(index) + " has len "@ + dec_digits(len)
}

/// Renders the status line for a segment's index and payload length.
pub fn status_line(index: usize, len: usize) -> (r: String)
    ensures
        r@ == status_line_spec(index as nat, len as nat),
{
    let mut r = String::from_str("data ");
    let d1 = to_decimal(index);
    r.append(d1.as_str());
    r.append(" has len ");
    let d2 = to_decimal(len);
    r.append(d2.as_str());
    r
}

/// A sequence of actions is the write plan for the given segments,
/// requested indices and optional output base path: one action per
/// selection pair, in order, each carrying the pair's index, its exact
/// payload bytes, and the destination owed to it.
pub open spec fn plan_matches(
    acts: Seq<WriteAction>,
    segs: Seq<Seq<u8>>,
    ids: Seq<usize>,
    output: Option<Seq<char>>,
) -> bool {
    let sel = selection(segs, ids);
    &&& acts.len() == sel.len()
    &&& forall|k: int| 0 <= k < sel.len() ==> {
        &&& (#[trigger] acts[k]).index == sel[k].0
        &&& acts[k].payload@ == sel[k].1
        &&& target_resolved(acts[k].target, output, sel.len() as nat, sel[k].0)
    }
}

/// The write plan: one action per selection pair, in request order, each
/// carrying the pair's index, its exact payload bytes, and the destination
/// owed to it under the optional output base path.
pub fn plan(segments: &Vec<Vec<u8>>, ids: &Vec<usize>, output: Option<&String>) -> (r: Vec<
    WriteAction,
>)
    ensures
        plan_matches(r@, segments.deep_view(), ids@, output_view(output)),
{
    let ghost sel = selection(segments.deep_view(), ids@);
    let pairs = select(segments, ids);
    let n = pairs.len();
    let mut r: Vec<WriteAction> = Vec::new();
    let mut k: usize = 0;
    while k < n
        invariant
            0 <= k <= n,
            n == pairs@.len() == sel.len(),
            sel == selection(segments.deep_view(), ids@),
            forall|j: int| 0 <= j < n ==> (#[trigger] pairs@[j]).0 == sel[j].0 && pairs@[j].1@
                == sel[j].1,
            r@.len() == k,
            forall|j: int| 0 <= j < k ==> {
                &&& (#[trigger] r@[j]).index == sel[j].0
                &&& r@[j].payload@ == sel[j].1
                &&& target_resolved(r@[j].target, output_view(output), sel.len() as nat, sel[j].0)
            },
        decreases n - k,
    {
        let index = pairs[k].0;
        let payload = copy_bytes(&pairs[k].1);
        let target = match output {
            None => OutputTarget::Stdout,
            Some(base) => {
                if n == 1 {
                    OutputTarget::File(String::from_str(base.as_str()))
                } else {
                    OutputTarget::File(suffixed_path(base, index))
                }
            },
        };
        r.push(WriteAction { index, payload, target });
        k = k + 1;
    }
    r
}

/// When exactly one pair is selected and an output base path is given, the
/// plan writes that segment's exact payload bytes to the base path
/// unmodified.
pub proof fn lemma_single_selection_file(
    acts: Seq<WriteAction>,
    segs: Seq<Seq<u8>>,
    ids: Seq<usize>,
    base: Seq<char>,
)
    requires
        strictly_ascending(ids),
        plan_matches(acts, segs, ids, Some(base)),
        selection(segs, ids).len() == 1,
    ensures
        acts.len() == 1,
        acts[0].target matches OutputTarget::File(p) && p@ == base,
        (acts[0].index as int) < segs.len(),
        acts[0].payload@ == segs[acts[0].index as int],
{
    lemma_selection_exact(segs, ids);
}

/// When more than one pair is selected and an output base path is given,
/// every pair goes to its own file named by the pair's segment index, and
/// none goes to the bare base path.
pub proof fn lemma_multi_selection_files(
    acts: Seq<WriteAction>,
    segs: Seq<Seq<u8>>,
    ids: Seq<usize>,
    base: Seq<char>,
)
    requires
        strictly_ascending(ids),
        plan_matches(acts, segs, ids, Some(base)),
        selection(segs, ids).len() > 1,
    ensures
        forall|k: int| 0 <= k < acts.len() ==> {
            &&& (#[trigger] acts[k]).target matches OutputTarget::File(p) && p@ == base + "."@
                + dec_digits(acts[k].index as nat)
            &&& acts[k].payload@ == segs[acts[k].index as int]
        },
        forall|k: int| 0 <= k < acts.len() ==> ((#[trigger] acts[k]).target matches
            OutputTarget::File(p) ==> p@ != base),
        forall|k1: int, k2: int| 0 <= k1 < k2 < acts.len() ==> acts[k1].index != acts[k2].index,
{
    lemma_selection_exact(segs, ids);
    assert forall|k: int| 0 <= k < acts.len() implies ((#[trigger] acts[k]).target matches
        OutputTarget::File(p) ==> p@ != base) by {
        let suffixed = base + "."@ + dec_digits(acts[k].index as nat);
        assert(dec_digits(acts[k].index as nat).len() >= 1);
        assert(suffixed.len() > base.len());
    }
}

/// The payloads of a selection, concatenated in order with nothing added.
pub open spec fn concat_payloads(sel: Seq<(usize, Seq<u8>)>) -> Seq<u8>
    decreases sel.len(),
{
    if sel.len() == 0 {
        Seq::empty()
    } else {
        concat_payloads(sel.drop_last()) + sel.last().1
    }
}

/// What a plan sends to standard output: the payloads of its
/// standard-output actions, concatenated in plan order with nothing added.
pub open spec fn stdout_bytes(acts: Seq<WriteAction>) -> Seq<u8>
    decreases acts.len(),
{
    if acts.len() == 0 {
        Seq::empty()
    } else {
        stdout_bytes(acts.drop_last()) + (if acts.last().target is Stdout {
            acts.last().payload@
        } else {
            Seq::empty()
        })
    }
}

/// With no output path, a plan for the selection routes every selected
/// payload to standard output, so the stream receives exactly the selected
/// payloads concatenated in order with no added separators.
pub proof fn lemma_stdout_concatenation(acts: Seq<WriteAction>, segs: Seq<Seq<u8>>, ids: Seq<usize>)
    requires
        plan_matches(acts, segs, ids, None),
    ensures
        stdout_bytes(acts) == concat_payloads(selection(segs, ids)),
{
    lemma_stdout_bytes_matches(acts, selection(segs, ids));
}

/// Pointwise-equal payloads, all routed to standard output, concatenate to
/// the same stream.
proof fn lemma_stdout_bytes_matches(acts: Seq<WriteAction>, sel: Seq<(usize, Seq<u8>)>)
    requires
        acts.len() == sel.len(),
        forall|k: int| 0 <= k < acts.len() ==> (#[trigger] acts[k]).payload@ == sel[k].1
            && acts[k].target is Stdout,
    ensures
        stdout_bytes(acts) == concat_payloads(sel),
    decreases acts.len(),
{
    if acts.len() > 0 {
        lemma_stdout_bytes_matches(acts.drop_last(), sel.drop_last());
    }
}

/// A byte-for-byte copy.
fn copy_bytes(src: &Vec<u8>) -> (r: Vec<u8>)
    ensures
        r@ == src@,
{
    let mut r: Vec<u8> = Vec::new();
    let mut i: usize = 0;
    while i < src.len()
        invariant
            0 <= i <= src@.len(),
            r@ == src@.take(i as int),
        decreases src@.len() - i,
    {
        r.push(src[i]);
        proof {
            assert(src@.take(i + 1) =~= src@.take(i as int).push(src@[i as int]));
        }
        i = i + 1;
    }
    proof {
        assert(src@.take(src@.len() as int) =~= src@);
    }
    r
}

} // verus!
