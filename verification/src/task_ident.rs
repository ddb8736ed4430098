//! Task identities and their canonical filename encoding.
//!
//! A pending task is identified by `(priority, name, id, process_id)` and is
//! recorded on disk under the filename
//! `"<priority>-<process_id>-<id>-<name>"`. The separator `'-'` cannot occur
//! in the numeric fields or in a process token, so the encoding round-trips:
//! parsing accepts exactly the canonical encodings of well-formed identities.

use vstd::prelude::*;

use crate::digits::{dec_rep, is_digit, lemma_dec_rep_canonical, parse_decimal_range, push_decimal};
use crate::strutil::{chars_to_string, find_char, push_all, str_to_chars, subvec};

verus! {

/// The mathematical content of a `TaskIdent`.
pub ghost struct TaskIdentView {
    pub priority: int,
    pub name: Seq<char>,
    pub id: int,
    pub process_id: Seq<char>,
}

impl TaskIdentView {
    /// A well-formed identity: the numeric fields fit in `usize` and the
    /// process token is a nonempty string free of the separator.
    pub open spec fn wf(self) -> bool {
        &&& 0 <= self.priority <= usize::MAX
        &&& 0 <= self.id <= usize::MAX
        &&& self.process_id.len() >= 1
        &&& forall|i: int| 0 <= i < self.process_id.len() ==> self.process_id[i] != '-'
    }
}

/// The canonical filename of an identity.
pub open spec fn spec_filename(v: TaskIdentView) -> Seq<char> {
    dec_rep(v.priority as nat) + seq!['-'] + v.process_id + seq!['-'] + dec_rep(v.id as nat)
        + seq!['-'] + v.name
}

/// The identity of a pending task. Lower `priority` values are served first;
/// `id` is allocated monotonically within a process; `process_id` is the
/// process-wide random token.
pub struct TaskIdent {
    pub priority: usize,
    pub name: String,
    pub id: usize,
    pub process_id: String,
}

impl View for TaskIdent {
    type V = TaskIdentView;

    open spec fn view(&self) -> TaskIdentView {
        TaskIdentView {
            priority: self.priority as int,
            name: self.name@,
            id: self.id as int,
            process_id: self.process_id@,
        }
    }
}

/// A filename that is not the canonical encoding of any well-formed identity.
#[derive(Debug)]
pub struct ParseError;

impl PartialEq for TaskIdent {
    fn eq(&self, other: &TaskIdent) -> (r: bool) {
        self.priority == other.priority && self.id == other.id && self.name == other.name
            && self.process_id == other.process_id
    }
}

impl vstd::std_specs::cmp::PartialEqSpecImpl for TaskIdent {
    open spec fn obeys_eq_spec() -> bool {
        true
    }

    open spec fn eq_spec(&self, other: &TaskIdent) -> bool {
        self@ == other@
    }
}

impl Eq for TaskIdent {}

impl Clone for TaskIdent {
    fn clone(&self) -> (r: Self)
        ensures
            r == *self,
    {
        TaskIdent {
            priority: self.priority,
            name: self.name.clone(),
            id: self.id,
            process_id: self.process_id.clone(),
        }
    }
}

impl TaskIdent {
    /// Builds the identity of a fresh task. The caller supplies the
    /// process-wide token; `SchedulerRoot` fills it in for its own tasks.
    pub fn new(priority: usize, name: String, id: usize, process_id: String) -> (r: TaskIdent)
        ensures
            r@ == (TaskIdentView {
                priority: priority as int,
                name: name@,
                id: id as int,
                process_id: process_id@,
            }),
    {
        TaskIdent { priority, name, id, process_id }
    }

    /// Encodes this identity as its canonical filename.
    pub fn to_filename(&self) -> (r: String)
        ensures
            r@ == spec_filename(self@),
    {
        let mut out: Vec<char> = Vec::new();
        push_decimal(self.priority, &mut out);
        out.push('-');
        let pid_chars = str_to_chars(self.process_id.as_str());
        push_all(&mut out, &pid_chars);
        out.push('-');
        push_decimal(self.id, &mut out);
        out.push('-');
        let name_chars = str_to_chars(self.name.as_str());
        push_all(&mut out, &name_chars);
        proof {
            assert(out@ =~= spec_filename(self@));
        }
        chars_to_string(&out)
    }

    /// Parses a filename back into the identity it encodes. Fails exactly on
    /// the strings that are no canonical encoding of a well-formed identity:
    /// a missing separator, an empty process token, a numeric field that is
    /// empty, padded with a leading zero, non-numeric, or out of range.
    #[verifier::rlimit(100)]
    pub fn from_filename(s: &str) -> (r: Result<TaskIdent, ParseError>)
        ensures
            match r {
                Ok(ident) => ident@.wf() && s@ == spec_filename(ident@),
                Err(_) => forall|v: TaskIdentView| v.wf() ==> s@ != #[trigger] spec_filename(v),
            },
    {
        let chars = str_to_chars(s);
        let n = chars.len();
        let i1 = match find_char(&chars, 0, '-') {
            Some(i) => i,
            None => {
                proof {
                    assert forall|v: TaskIdentView| v.wf() implies s@ != spec_filename(v) by {
                        if s@ == spec_filename(v) {
                            lemma_filename_parts(v);
                        }
                    }
                }
                return Err(ParseError);
            },
        };
        let priority = match parse_decimal_range(&chars, 0, i1) {
            Some(p) => p,
            None => {
                proof {
                    assert forall|v: TaskIdentView| v.wf() implies s@ != spec_filename(v) by {
                        if s@ == spec_filename(v) {
                            lemma_filename_parts(v);
                            let l1 = dec_rep(v.priority as nat).len() as int;
                            assert(i1 == l1);
                            assert(chars@.subrange(0, i1 as int) == dec_rep(v.priority as nat));
                        }
                    }
                }
                return Err(ParseError);
            },
        };
        let i2 = match find_char(&chars, i1 + 1, '-') {
            Some(i) => i,
            None => {
                proof {
                    assert forall|v: TaskIdentView| v.wf() implies s@ != spec_filename(v) by {
                        if s@ == spec_filename(v) {
                            lemma_filename_parts(v);
                        }
                    }
                }
                return Err(ParseError);
            },
        };
        if i2 == i1 + 1 {
            proof {
                assert forall|v: TaskIdentView| v.wf() implies s@ != spec_filename(v) by {
                    if s@ == spec_filename(v) {
                        lemma_filename_parts(v);
                        let l1 = dec_rep(v.priority as nat).len() as int;
                        let l2 = v.process_id.len() as int;
                        assert(i1 == l1);
                        assert(i2 == l1 + 1 + l2);
                    }
                }
            }
            return Err(ParseError);
        }
        let i3 = match find_char(&chars, i2 + 1, '-') {
            Some(i) => i,
            None => {
                proof {
                    assert forall|v: TaskIdentView| v.wf() implies s@ != spec_filename(v) by {
                        if s@ == spec_filename(v) {
                            lemma_filename_parts(v);
                            let l1 = dec_rep(v.priority as nat).len() as int;
                            let l2 = v.process_id.len() as int;
                            assert(i1 == l1);
                            assert(i2 == l1 + 1 + l2);
                        }
                    }
                }
                return Err(ParseError);
            },
        };
        let id = match parse_decimal_range(&chars, i2 + 1, i3) {
            Some(n) => n,
            None => {
                proof {
                    assert forall|v: TaskIdentView| v.wf() implies s@ != spec_filename(v) by {
                        if s@ == spec_filename(v) {
                            lemma_filename_parts(v);
                            let l1 = dec_rep(v.priority as nat).len() as int;
                            let l2 = v.process_id.len() as int;
                            let l3 = dec_rep(v.id as nat).len() as int;
                            assert(i1 == l1);
                            assert(i2 == l1 + 1 + l2);
                            assert(i3 == l1 + 2 + l2 + l3);
                            assert(chars@.subrange(i2 + 1 as int, i3 as int) == dec_rep(
                                v.id as nat,
                            ));
                        }
                    }
                }
                return Err(ParseError);
            },
        };
        let pid_chars = subvec(&chars, i1 + 1, i2);
        let name_chars = subvec(&chars, i3 + 1, n);
        let ident = TaskIdent {
            priority,
            name: chars_to_string(&name_chars),
            id,
            process_id: chars_to_string(&pid_chars),
        };
        proof {
            assert(ident@.wf());
            assert(s@ =~= spec_filename(ident@));
        }
        Ok(ident)
    }
}

/// Where the separators of a canonical filename stand, and what lies between
/// them: the numeric fields and the process token are free of `'-'`, so the
/// first three occurrences of `'-'` delimit the four fields.
pub proof fn lemma_filename_parts(v: TaskIdentView)
    requires
        v.wf(),
    ensures
        ({
            let s = spec_filename(v);
            let l1 = dec_rep(v.priority as nat).len() as int;
            let l2 = v.process_id.len() as int;
            let l3 = dec_rep(v.id as nat).len() as int;
            &&& l1 >= 1 && l3 >= 1 && l2 >= 1
            &&& s.len() == l1 + 3 + l2 + l3 + v.name.len()
            &&& s.subrange(0, l1) == dec_rep(v.priority as nat)
            &&& s[l1] == '-'
            &&& s.subrange(l1 + 1, l1 + 1 + l2) == v.process_id
            &&& s[l1 + 1 + l2] == '-'
            &&& s.subrange(l1 + 2 + l2, l1 + 2 + l2 + l3) == dec_rep(v.id as nat)
            &&& s[l1 + 2 + l2 + l3] == '-'
            &&& s.subrange(l1 + 3 + l2 + l3, s.len() as int) == v.name
            &&& forall|j: int| 0 <= j < l1 ==> s[j] != '-'
            &&& forall|j: int| l1 + 1 <= j < l1 + 1 + l2 ==> s[j] != '-'
            &&& forall|j: int| l1 + 2 + l2 <= j < l1 + 2 + l2 + l3 ==> s[j] != '-'
        }),
{
    lemma_dec_rep_canonical(v.priority as nat);
    lemma_dec_rep_canonical(v.id as nat);
    let s = spec_filename(v);
    let a = dec_rep(v.priority as nat);
    let b = dec_rep(v.id as nat);
    let l1 = a.len() as int;
    let l2 = v.process_id.len() as int;
    let l3 = b.len() as int;
    assert(s.subrange(0, l1) =~= a);
    assert(s.subrange(l1 + 1, l1 + 1 + l2) =~= v.process_id);
    assert(s.subrange(l1 + 2 + l2, l1 + 2 + l2 + l3) =~= b);
    assert(s.subrange(l1 + 3 + l2 + l3, s.len() as int) =~= v.name);
    assert forall|j: int| 0 <= j < l1 implies s[j] != '-' by {
        assert(s[j] == a[j]);
        assert(is_digit(a[j]));
    }
    assert forall|j: int| l1 + 1 <= j < l1 + 1 + l2 implies s[j] != '-' by {
        assert(s[j] == v.process_id[j - (l1 + 1)]);
    }
    assert forall|j: int| l1 + 2 + l2 <= j < l1 + 2 + l2 + l3 implies s[j] != '-' by {
        assert(s[j] == b[j - (l1 + 2 + l2)]);
        assert(is_digit(b[j - (l1 + 2 + l2)]));
    }
}

/// Canonical filenames are injective: two well-formed identities with the
/// same filename are the same identity. Together with the contracts of
/// `to_filename` and `from_filename` this is the round-trip law:
/// `from_filename(to_filename(ident))` succeeds and returns `ident` again,
/// for every well-formed `ident`.
pub proof fn lemma_filename_round_trip(v1: TaskIdentView, v2: TaskIdentView)
    requires
        v1.wf(),
        v2.wf(),
        spec_filename(v1) == spec_filename(v2),
    ensures
        v1 == v2,
{
    lemma_filename_parts(v1);
    lemma_filename_parts(v2);
    let s = spec_filename(v1);
    let a1 = dec_rep(v1.priority as nat);
    let a2 = dec_rep(v2.priority as nat);
    // The first '-' stands at the end of the priority field in both readings.
    let l1a = a1.len() as int;
    let l1b = a2.len() as int;
    assert(l1a == l1b) by {
        if l1a < l1b {
            assert(s[l1a] == '-');
        } else if l1b < l1a {
            assert(s[l1b] == '-');
        }
    }
    assert(a1 == a2) by {
        assert(a1 =~= s.subrange(0, l1a));
        assert(a2 =~= s.subrange(0, l1a));
    }
    crate::digits::lemma_digits_value_dec_rep(v1.priority as nat);
    crate::digits::lemma_digits_value_dec_rep(v2.priority as nat);
    // The second '-' stands at the end of the process token in both readings.
    let l2a = v1.process_id.len() as int;
    let l2b = v2.process_id.len() as int;
    assert(l2a == l2b) by {
        if l2a < l2b {
            assert(s[l1a + 1 + l2a] == '-');
        } else if l2b < l2a {
            assert(s[l1a + 1 + l2b] == '-');
        }
    }
    assert(v1.process_id == v2.process_id) by {
        assert(v1.process_id =~= s.subrange(l1a + 1, l1a + 1 + l2a));
        assert(v2.process_id =~= s.subrange(l1a + 1, l1a + 1 + l2a));
    }
    // The third '-' stands at the end of the id field in both readings.
    let b1 = dec_rep(v1.id as nat);
    let b2 = dec_rep(v2.id as nat);
    let l3a = b1.len() as int;
    let l3b = b2.len() as int;
    assert(l3a == l3b) by {
        if l3a < l3b {
            assert(s[l1a + 2 + l2a + l3a] == '-');
        } else if l3b < l3a {
            assert(s[l1a + 2 + l2a + l3b] == '-');
        }
    }
    assert(b1 == b2) by {
        assert(b1 =~= s.subrange(l1a + 2 + l2a, l1a + 2 + l2a + l3a));
        assert(b2 =~= s.subrange(l1a + 2 + l2a, l1a + 2 + l2a + l3a));
    }
    crate::digits::lemma_digits_value_dec_rep(v1.id as nat);
    crate::digits::lemma_digits_value_dec_rep(v2.id as nat);
    assert(v1.name == v2.name) by {
        assert(v1.name =~= s.subrange(l1a + 3 + l2a + l3a, s.len() as int));
        assert(v2.name =~= s.subrange(l1a + 3 + l2a + l3a, s.len() as int));
    }
}

} // verus!
