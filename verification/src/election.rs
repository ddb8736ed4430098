//! The election: which pending task a scan of a resource directory puts at
//! the head of the queue.
//!
//! A scan entry takes part exactly when its filename parses as a task
//! identity; the head is the candidate least in the election order. Entries
//! whose filenames do not parse are silently skipped.

use vstd::prelude::*;

use crate::candidate::{cand_le, lemma_cand_le_total, lex_le, rank, Candidate, ScanEntry};
use crate::strutil::str_to_chars;
use crate::task_ident::{lemma_filename_round_trip, spec_filename, TaskIdent, TaskIdentView};

verus! {

/// The mathematical content of a candidate.
pub ghost struct CandView {
    pub ident: TaskIdentView,
    pub created_us: int,
    pub locked: bool,
    pub fname: Seq<char>,
}

/// The view of an exec candidate.
pub open spec fn view_of(c: Candidate) -> CandView {
    CandView {
        ident: c.ident@,
        created_us: c.created_us as int,
        locked: c.locked,
        fname: c.fname@,
    }
}

/// Does this entry's filename encode some well-formed identity?
pub open spec fn entry_parses(e: ScanEntry) -> bool {
    exists|v: TaskIdentView| v.wf() && e.filename@ == #[trigger] spec_filename(v)
}

/// The identity a parsing entry encodes (unique, since the encoding is
/// injective).
pub open spec fn entry_ident(e: ScanEntry) -> TaskIdentView {
    choose|v: TaskIdentView| v.wf() && e.filename@ == #[trigger] spec_filename(v)
}

/// The candidate a parsing entry stands for.
pub open spec fn cand_view_of(e: ScanEntry) -> CandView {
    CandView {
        ident: entry_ident(e),
        created_us: e.created_us as int,
        locked: e.locked,
        fname: e.filename@,
    }
}

/// Does any entry of the scan take part in the election?
pub open spec fn any_candidate(scan: Seq<ScanEntry>) -> bool {
    exists|i: int| 0 <= i < scan.len() && entry_parses(#[trigger] scan[i])
}

/// The election order on candidate views: priority, then creation time, then
/// lexicographic filename order.
pub open spec fn cand_le_view(a: CandView, b: CandView) -> bool {
    if a.ident.priority != b.ident.priority {
        a.ident.priority < b.ident.priority
    } else if a.created_us != b.created_us {
        a.created_us < b.created_us
    } else {
        lex_le(a.fname, b.fname)
    }
}

/// `h` wins the election over `scan`: it stands for some parsing entry and
/// is least, in election order, among all parsing entries.
pub open spec fn is_elected(scan: Seq<ScanEntry>, h: CandView) -> bool {
    &&& exists|i: int|
        0 <= i < scan.len() && entry_parses(#[trigger] scan[i]) && cand_view_of(scan[i]) == h
    &&& forall|j: int|
        0 <= j < scan.len() && entry_parses(#[trigger] scan[j]) ==> cand_le_view(
            h,
            cand_view_of(scan[j]),
        )
}

/// The winner of the election (unique when filenames are distinct).
pub open spec fn elected_head(scan: Seq<ScanEntry>) -> CandView {
    choose|h: CandView| is_elected(scan, h)
}

/// A scan of a real directory never lists one filename twice.
pub open spec fn distinct_filenames(scan: Seq<ScanEntry>) -> bool {
    forall|i: int, j: int|
        0 <= i < j < scan.len() ==> (#[trigger] scan[i]).filename@ != (
        #[trigger] scan[j]).filename@
}

/// Lexicographic order is antisymmetric.
proof fn lemma_lex_le_antisym(a: Seq<char>, b: Seq<char>)
    requires
        lex_le(a, b),
        lex_le(b, a),
    ensures
        a == b,
    decreases a.len(),
{
    if a.len() == 0 {
        assert(b.len() == 0);
        assert(a =~= b);
    } else {
        assert(b.len() > 0);
        assert((a[0] as u32) == (b[0] as u32));
        vstd::utf8::char_u32_cast(a[0], a[0] as u32);
        vstd::utf8::char_u32_cast(b[0], b[0] as u32);
        assert(a[0] == b[0]);
        lemma_lex_le_antisym(a.skip(1), b.skip(1));
        assert(a =~= b) by {
            assert(forall|i: int|
                1 <= i < a.len() ==> a[i] == a.skip(1)[i - 1] && b[i] == b.skip(1)[i - 1]);
        }
    }
}

/// Over a scan with distinct filenames the election has at most one winner.
pub proof fn lemma_elected_unique(scan: Seq<ScanEntry>, h1: CandView, h2: CandView)
    requires
        distinct_filenames(scan),
        is_elected(scan, h1),
        is_elected(scan, h2),
    ensures
        h1 == h2,
{
    let i1 = choose|i: int|
        0 <= i < scan.len() && entry_parses(#[trigger] scan[i]) && cand_view_of(scan[i]) == h1;
    let i2 = choose|i: int|
        0 <= i < scan.len() && entry_parses(#[trigger] scan[i]) && cand_view_of(scan[i]) == h2;
    assert(cand_le_view(h1, h2) && cand_le_view(h2, h1));
    lemma_lex_le_antisym(h1.fname, h2.fname);
    assert(scan[i1].filename@ == scan[i2].filename@);
    if i1 != i2 {
        if i1 < i2 {
            assert(scan[i1].filename@ != scan[i2].filename@);
        } else {
            assert(scan[i2].filename@ != scan[i1].filename@);
        }
    }
}

/// On well-formed candidates the exec order agrees with the view order.
proof fn lemma_cand_le_agrees(a: Candidate, b: Candidate)
    ensures
        cand_le(a, b) == cand_le_view(view_of(a), view_of(b)),
{
}

/// Runs the election over one scan of a resource directory: parses each
/// filename (skipping the entries that reject), ranks the candidates, and
/// returns the head. Yields a candidate exactly when some entry parses, and
/// then the winner of the election.
#[verifier::rlimit(100)]
#[verifier::spinoff_prover]
pub fn elect(scan: &Vec<ScanEntry>) -> (r: Option<Candidate>)
    ensures
        r is Some == any_candidate(scan@),
        r matches Some(h) ==> h.wf() && is_elected(scan@, view_of(h)),
{
    let mut cands: Vec<Candidate> = Vec::new();
    let mut i: usize = 0;
    while i < scan.len()
        invariant
            i <= scan@.len(),
            forall|k: int|
                0 <= k < cands@.len() ==> (#[trigger] cands@[k]).wf() && exists|j: int|
                    0 <= j < i && entry_parses(#[trigger] scan@[j]) && cand_view_of(scan@[j])
                        == view_of(cands@[k]),
            forall|j: int|
                0 <= j < i && entry_parses(#[trigger] scan@[j]) ==> exists|k: int|
                    0 <= k < cands@.len() && view_of(#[trigger] cands@[k]) == cand_view_of(
                        scan@[j],
                    ),
        decreases scan@.len() - i,
    {
        let entry = &scan[i];
        let ghost prior = cands@;
        match TaskIdent::from_filename(entry.filename.as_str()) {
            Ok(ident) => {
                let fname = str_to_chars(entry.filename.as_str());
                let c = Candidate {
                    ident,
                    fname,
                    created_us: entry.created_us,
                    locked: entry.locked,
                };
                proof {
                    assert(entry_parses(scan@[i as int])) by {
                        assert(c.ident@.wf() && scan@[i as int].filename@ == spec_filename(
                            c.ident@,
                        ));
                    }
                    assert(entry_ident(scan@[i as int]) == c.ident@) by {
                        let v = entry_ident(scan@[i as int]);
                        assert(v.wf() && scan@[i as int].filename@ == spec_filename(v));
                        lemma_filename_round_trip(v, c.ident@);
                    }
                    assert(cand_view_of(scan@[i as int]) == view_of(c));
                }
                cands.push(c);
                proof {
                    assert forall|k: int| 0 <= k < cands@.len() implies (
                    #[trigger] cands@[k]).wf() && exists|j: int|
                        0 <= j < i + 1 && entry_parses(#[trigger] scan@[j]) && cand_view_of(
                            scan@[j],
                        ) == view_of(cands@[k]) by {
                        if k == prior.len() {
                            assert(cands@[k] == c);
                            assert(0 <= i < i + 1 && entry_parses(scan@[i as int])
                                && cand_view_of(scan@[i as int]) == view_of(c));
                        } else {
                            assert(cands@[k] == prior[k]);
                            let j0 = choose|j: int|
                                0 <= j < i && entry_parses(#[trigger] scan@[j]) && cand_view_of(
                                    scan@[j],
                                ) == view_of(prior[k]);
                            assert(entry_parses(scan@[j0]));
                        }
                    }
                    assert forall|j: int|
                        0 <= j < i + 1 && entry_parses(#[trigger] scan@[j]) implies exists|k: int|
                        0 <= k < cands@.len() && view_of(#[trigger] cands@[k]) == cand_view_of(
                            scan@[j],
                        ) by {
                        if j == i {
                            assert(view_of(cands@[prior.len() as int]) == cand_view_of(scan@[j]));
                        } else {
                            let k0 = choose|k: int|
                                0 <= k < prior.len() && view_of(#[trigger] prior[k])
                                    == cand_view_of(scan@[j]);
                            assert(view_of(cands@[k0]) == cand_view_of(scan@[j]));
                        }
                    }
                }
            },
            Err(_) => {
                proof {
                    assert(!entry_parses(scan@[i as int])) by {
                        if entry_parses(scan@[i as int]) {
                            let v = entry_ident(scan@[i as int]);
                            assert(v.wf() && scan@[i as int].filename@ == spec_filename(v));
                        }
                    }
                }
            },
        }
        i = i + 1;
    }
    let ghost cs = cands@;
    let mut sorted = rank(cands);
    if sorted.len() == 0 {
        proof {
            lemma_elect_none(scan@, cs);
        }
        return None;
    }
    let ghost sseq = sorted@;
    proof {
        lemma_elect_head(scan@, cs, sseq);
    }
    let head = sorted.remove(0);
    Some(head)
}

/// With no candidates collected, no entry of the scan parses.
proof fn lemma_elect_none(scan: Seq<ScanEntry>, cs: Seq<Candidate>)
    requires
        cs.len() == 0,
        forall|j: int|
            0 <= j < scan.len() && entry_parses(#[trigger] scan[j]) ==> exists|k: int|
                0 <= k < cs.len() && view_of(#[trigger] cs[k]) == cand_view_of(scan[j]),
    ensures
        !any_candidate(scan),
{
    if any_candidate(scan) {
        let j = choose|j: int| 0 <= j < scan.len() && entry_parses(#[trigger] scan[j]);
        let k = choose|k: int| 0 <= k < cs.len() && view_of(#[trigger] cs[k]) == cand_view_of(
            scan[j],
        );
    }
}

/// The head of the ranked candidate list wins the election over the scan the
/// candidates were collected from.
proof fn lemma_elect_head(scan: Seq<ScanEntry>, cs: Seq<Candidate>, sseq: Seq<Candidate>)
    requires
        forall|k: int|
            0 <= k < cs.len() ==> (#[trigger] cs[k]).wf() && exists|j: int|
                0 <= j < scan.len() && entry_parses(#[trigger] scan[j]) && cand_view_of(scan[j])
                    == view_of(cs[k]),
        forall|j: int|
            0 <= j < scan.len() && entry_parses(#[trigger] scan[j]) ==> exists|k: int|
                0 <= k < cs.len() && view_of(#[trigger] cs[k]) == cand_view_of(scan[j]),
        sseq.to_multiset() == cs.to_multiset(),
        crate::candidate::ranked(sseq),
        sseq.len() > 0,
    ensures
        sseq[0].wf(),
        is_elected(scan, view_of(sseq[0])),
        any_candidate(scan),
{
    broadcast use vstd::seq_lib::group_to_multiset_ensures;

    let head = sseq[0];
    assert(sseq.contains(head));
    assert(sseq.to_multiset().count(head) > 0);
    assert(cs.to_multiset().count(head) > 0);
    assert(cs.contains(head));
    let kh = choose|k: int| 0 <= k < cs.len() && cs[k] == head;
    assert(cs[kh].wf());
    assert(exists|j: int|
        0 <= j < scan.len() && entry_parses(#[trigger] scan[j]) && cand_view_of(scan[j])
            == view_of(head));
    assert forall|j: int| 0 <= j < scan.len() && entry_parses(#[trigger] scan[j]) implies
        cand_le_view(view_of(head), cand_view_of(scan[j])) by {
        let k = choose|k: int|
            0 <= k < cs.len() && view_of(#[trigger] cs[k]) == cand_view_of(scan[j]);
        assert(cs.contains(cs[k]));
        assert(cs.to_multiset().count(cs[k]) > 0);
        assert(sseq.to_multiset().count(cs[k]) > 0);
        assert(sseq.contains(cs[k]));
        let m = choose|m: int| 0 <= m < sseq.len() && sseq[m] == cs[k];
        if m == 0 {
            lemma_cand_le_total(head, head);
        } else {
            assert(cand_le(sseq[0], sseq[m]));
        }
        assert(cand_le(head, cs[k]));
        lemma_cand_le_agrees(head, cs[k]);
    }
}

} // verus!
