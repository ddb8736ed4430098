//! Ranking of the pending tasks seen in one scan of a resource directory.
//!
//! Candidates are ordered by (priority ascending, on-disk creation time
//! ascending); ties within the same microsecond are broken by lexicographic
//! filename order. `rank` sorts a scan by that order.

use vstd::prelude::*;
use vstd::seq_lib::lemma_multiset_commutative;

use crate::task_ident::{spec_filename, TaskIdent};

verus! {

/// One directory entry as the scanner saw it: its filename, its on-disk
/// creation time in microseconds, and whether a peer's shared advisory lock
/// blocked our exclusive probe (`locked == true` means the creator is alive).
pub struct ScanEntry {
    pub filename: String,
    pub created_us: u64,
    pub locked: bool,
}

/// A directory entry whose filename parsed as a task identity.
pub struct Candidate {
    pub ident: TaskIdent,
    pub fname: Vec<char>,
    pub created_us: u64,
    pub locked: bool,
}

impl Candidate {
    /// The stored filename really is the canonical encoding of the identity.
    pub open spec fn wf(self) -> bool {
        &&& self.ident@.wf()
        &&& self.fname@ == spec_filename(self.ident@)
    }
}

/// Lexicographic order on character sequences.
pub open spec fn lex_le(a: Seq<char>, b: Seq<char>) -> bool
    decreases a.len(),
{
    if a.len() == 0 {
        true
    } else if b.len() == 0 {
        false
    } else if (a[0] as u32) < (b[0] as u32) {
        true
    } else if (a[0] as u32) > (b[0] as u32) {
        false
    } else {
        lex_le(a.skip(1), b.skip(1))
    }
}

pub proof fn lemma_lex_le_total(a: Seq<char>, b: Seq<char>)
    ensures
        lex_le(a, b) || lex_le(b, a),
    decreases a.len(),
{
    if a.len() > 0 && b.len() > 0 && (a[0] as u32) == (b[0] as u32) {
        lemma_lex_le_total(a.skip(1), b.skip(1));
    }
}

pub proof fn lemma_lex_le_trans(a: Seq<char>, b: Seq<char>, c: Seq<char>)
    requires
        lex_le(a, b),
        lex_le(b, c),
    ensures
        lex_le(a, c),
    decreases a.len(),
{
    if a.len() > 0 && b.len() > 0 && c.len() > 0 && (a[0] as u32) == (b[0] as u32) && (b[0]
        as u32) == (c[0] as u32) {
        lemma_lex_le_trans(a.skip(1), b.skip(1), c.skip(1));
    }
}

/// If the first `i` characters agree, the order is decided by the rest.
proof fn lemma_lex_le_common_prefix(a: Seq<char>, b: Seq<char>, i: int)
    requires
        0 <= i <= a.len(),
        i <= b.len(),
        forall|j: int| 0 <= j < i ==> (a[j] as u32) == (b[j] as u32),
    ensures
        lex_le(a, b) == lex_le(a.skip(i), b.skip(i)),
    decreases i,
{
    if i > 0 {
        assert(a.len() > 0 && b.len() > 0 && (a[0] as u32) == (b[0] as u32));
        assert(a.skip(1).len() == a.len() - 1);
        lemma_lex_le_common_prefix(a.skip(1), b.skip(1), i - 1);
        assert(a.skip(1).skip(i - 1) =~= a.skip(i));
        assert(b.skip(1).skip(i - 1) =~= b.skip(i));
    } else {
        assert(a.skip(0) =~= a);
        assert(b.skip(0) =~= b);
    }
}

fn lex_le_exec(a: &Vec<char>, b: &Vec<char>) -> (r: bool)
    ensures
        r == lex_le(a@, b@),
{
    let mut i: usize = 0;
    while i < a.len() && i < b.len()
        invariant
            i <= a@.len(),
            i <= b@.len(),
            forall|j: int| 0 <= j < i ==> (a@[j] as u32) == (b@[j] as u32),
        decreases a@.len() - i,
    {
        let x = a[i];
        let y = b[i];
        if (x as u32) < (y as u32) {
            proof {
                lemma_lex_le_common_prefix(a@, b@, i as int);
                assert(a@.skip(i as int)[0] == x && b@.skip(i as int)[0] == y);
            }
            return true;
        }
        if (x as u32) > (y as u32) {
            proof {
                lemma_lex_le_common_prefix(a@, b@, i as int);
                assert(a@.skip(i as int)[0] == x && b@.skip(i as int)[0] == y);
            }
            return false;
        }
        i = i + 1;
    }
    proof {
        lemma_lex_le_common_prefix(a@, b@, if i < a@.len() {
            i as int
        } else {
            a@.len() as int
        });
    }
    a.len() <= b.len()
}

/// The election order: priority first, then on-disk creation time, then
/// lexicographic filename order.
pub open spec fn cand_le(a: Candidate, b: Candidate) -> bool {
    if a.ident@.priority != b.ident@.priority {
        a.ident@.priority < b.ident@.priority
    } else if a.created_us != b.created_us {
        a.created_us < b.created_us
    } else {
        lex_le(a.fname@, b.fname@)
    }
}

pub proof fn lemma_cand_le_total(a: Candidate, b: Candidate)
    ensures
        cand_le(a, b) || cand_le(b, a),
{
    lemma_lex_le_total(a.fname@, b.fname@);
}

pub proof fn lemma_cand_le_trans(a: Candidate, b: Candidate, c: Candidate)
    requires
        cand_le(a, b),
        cand_le(b, c),
    ensures
        cand_le(a, c),
{
    if a.ident@.priority == b.ident@.priority && b.ident@.priority == c.ident@.priority
        && a.created_us == b.created_us && b.created_us == c.created_us {
        lemma_lex_le_trans(a.fname@, b.fname@, c.fname@);
    }
}

fn cand_le_exec(a: &Candidate, b: &Candidate) -> (r: bool)
    ensures
        r == cand_le(*a, *b),
{
    if a.ident.priority != b.ident.priority {
        a.ident.priority < b.ident.priority
    } else if a.created_us != b.created_us {
        a.created_us < b.created_us
    } else {
        lex_le_exec(&a.fname, &b.fname)
    }
}

/// Sorted in election order.
pub open spec fn ranked(s: Seq<Candidate>) -> bool {
    forall|i: int, j: int| 0 <= i < j < s.len() ==> cand_le(#[trigger] s[i], #[trigger] s[j])
}

proof fn lemma_to_multiset_insert(s: Seq<Candidate>, k: int, c: Candidate)
    requires
        0 <= k <= s.len(),
    ensures
        s.insert(k, c).to_multiset() == s.to_multiset().insert(c),
{
    broadcast use vstd::seq_lib::group_to_multiset_ensures;

    assert(s.insert(k, c) =~= s.take(k).push(c) + s.skip(k));
    lemma_multiset_commutative(s.take(k).push(c), s.skip(k));
    lemma_multiset_commutative(s.take(k), s.skip(k));
    assert(s.take(k) + s.skip(k) =~= s);
    assert(s.take(k).push(c).to_multiset() =~= s.take(k).to_multiset().insert(c));
    assert(s.take(k).to_multiset().insert(c).add(s.skip(k).to_multiset()) =~= s.take(
        k,
    ).to_multiset().add(s.skip(k).to_multiset()).insert(c));
}

fn insert_pos(out: &Vec<Candidate>, c: &Candidate) -> (k: usize)
    requires
        ranked(out@),
    ensures
        k <= out@.len(),
        forall|j: int| 0 <= j < k ==> cand_le(#[trigger] out@[j], *c),
        k < out@.len() ==> !cand_le(out@[k as int], *c),
{
    let mut k: usize = 0;
    while k < out.len()
        invariant
            k <= out@.len(),
            forall|j: int| 0 <= j < k ==> cand_le(#[trigger] out@[j], *c),
        decreases out@.len() - k,
    {
        if !cand_le_exec(&out[k], c) {
            return k;
        }
        k = k + 1;
    }
    k
}

/// Sorts a scan's candidates into election order: the result holds the same
/// candidates (as a multiset) and is ranked, so its head is the elected task.
pub fn rank(cands: Vec<Candidate>) -> (r: Vec<Candidate>)
    ensures
        r@.to_multiset() == cands@.to_multiset(),
        ranked(r@),
        r@.len() == cands@.len(),
{
    broadcast use vstd::seq_lib::group_to_multiset_ensures;

    let mut rest = cands;
    let mut out: Vec<Candidate> = Vec::new();
    proof {
        assert(out@.to_multiset().add(rest@.to_multiset()) =~= cands@.to_multiset());
    }
    while rest.len() > 0
        invariant
            out@.to_multiset().add(rest@.to_multiset()) == cands@.to_multiset(),
            out@.len() + rest@.len() == cands@.len(),
            ranked(out@),
        decreases rest@.len(),
    {
        broadcast use vstd::seq_lib::group_to_multiset_ensures;

        let ghost old_out = out@;
        let ghost old_rest = rest@;
        let c = rest.pop().unwrap();
        let k = insert_pos(&out, &c);
        out.insert(k, c);
        proof {
            assert(old_rest =~= rest@.push(c));
            assert(rest@.push(c).to_multiset() =~= rest@.to_multiset().insert(c));
            assert(old_rest.to_multiset() == rest@.to_multiset().insert(c));
            lemma_to_multiset_insert(old_out, k as int, c);
            assert(out@.to_multiset().add(rest@.to_multiset()) =~= cands@.to_multiset());
            assert forall|i: int, j: int| 0 <= i < j < out@.len() implies cand_le(
                #[trigger] out@[i],
                #[trigger] out@[j],
            ) by {
                old_out.insert_ensures(k as int, c);
                if j == k {
                    assert(cand_le(out@[i], out@[j]));
                } else if i == k {
                    assert(!cand_le(old_out[k as int], c));
                    lemma_cand_le_total(old_out[k as int], c);
                    if j - 1 > k {
                        assert(cand_le(old_out[k as int], old_out[j - 1]));
                        lemma_cand_le_trans(c, old_out[k as int], old_out[j - 1]);
                    }
                    assert(out@[j] == old_out[j - 1]);
                } else if i < k && j > k {
                    assert(out@[i] == old_out[i] && out@[j] == old_out[j - 1]);
                }
            }
        }
    }
    out
}

} // verus!
