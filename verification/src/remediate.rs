//! Remediator: decides what the confirm-then-delete step does with the
//! matches the scanner found.
//!
//! The decision is pure: given the match list and the single line the user
//! typed at the confirmation prompt, [`process_cache_modules`] returns a
//! [`RemediationPlan`] that names exactly the directories to remove — the
//! parent of each match when the match has one, the match itself otherwise.
//! The surrounding program prints the reports, reads the line, and carries
//! the plan out; a failure to remove one target never removes another
//! target from the plan.

use vstd::prelude::*;
use vstd::string::StrSliceExecFns;

verus! {

/// An error of the tool, as the surrounding program reports it: a failure
/// to enumerate the scan root, or a filesystem operation that failed on a
/// specific path (given as its components). Each carries the cause as text.
#[derive(Debug)]
pub enum MyError {
    Scan(String),
    File(String, Vec<String>),
}

/// True when `c` carries the Unicode `White_Space` property — exactly the
/// characters that trimming removes from the confirmation line.
pub open spec fn is_space_char(c: char) -> bool {
    let n = c as u32;
    n == 0x20 || (0x09 <= n && n <= 0x0D) || n == 0x85 || n == 0xA0 || n == 0x1680 || (0x2000 <= n
        && n <= 0x200A) || n == 0x2028 || n == 0x2029 || n == 0x202F || n == 0x205F || n == 0x3000
}

/// `s` with its leading whitespace removed.
pub open spec fn trim_front(s: Seq<char>) -> Seq<char>
    decreases s.len(),
{
    if s.len() > 0 && is_space_char(s.first()) {
        trim_front(s.drop_first())
    } else {
        s
    }
}

/// `s` with its trailing whitespace removed.
pub open spec fn trim_back(s: Seq<char>) -> Seq<char>
    decreases s.len(),
{
    if s.len() > 0 && is_space_char(s.last()) {
        trim_back(s.drop_last())
    } else {
        s
    }
}

/// `s` with whitespace removed from both ends, as `str::trim` leaves it.
pub open spec fn trimmed(s: Seq<char>) -> Seq<char> {
    trim_back(trim_front(s))
}

/// True when the confirmation line `s` counts as an affirmative answer:
/// after trimming whitespace it is the single letter `y`, compared without
/// regard to case. Anything else — empty input, `yes`, `n`, garbage — is a
/// decline.
pub open spec fn confirmation_accepted(s: Seq<char>) -> bool {
    trimmed(s) == seq!['y'] || trimmed(s) == seq!['Y']
}

/// The directory that remediation removes for the match `m`: the parent of
/// `m` when `m` has one, otherwise `m` itself.
pub open spec fn deletion_target(m: Seq<Seq<char>>) -> Seq<Seq<char>> {
    if m.len() >= 2 {
        m.drop_last()
    } else {
        m
    }
}

/// The deletion targets of the matches `ms`, in order: one per match.
pub open spec fn deletion_targets(ms: Seq<Seq<Seq<char>>>) -> Seq<Seq<Seq<char>>> {
    ms.map_values(|m: Seq<Seq<char>>| deletion_target(m))
}

/// What the remediation step does: report that nothing was found, report a
/// cancellation, or delete the listed directories one by one.
pub enum RemediationPlan {
    NoMatches,
    Declined,
    Delete(Vec<Vec<String>>),
}

/// True when `c` is whitespace; the executable side of [`is_space_char`].
fn is_space(c: char) -> (r: bool)
    ensures
        r == is_space_char(c),
{
    let n = c as u32;
    n == 0x20 || (0x09 <= n && n <= 0x0D) || n == 0x85 || n == 0xA0 || n == 0x1680 || (0x2000 <= n
        && n <= 0x200A) || n == 0x2028 || n == 0x2029 || n == 0x202F || n == 0x205F || n == 0x3000
}

proof fn lemma_trim_front_range(s: Seq<char>, a: int)
    requires
        0 <= a <= s.len(),
        forall|i: int| 0 <= i < a ==> is_space_char(s[i]),
        a < s.len() ==> !is_space_char(s[a]),
    ensures
        trim_front(s) == s.subrange(a, s.len() as int),
    decreases a,
{
    if a == 0 {
        assert(s.subrange(0, s.len() as int) =~= s);
    } else {
        let s2 = s.drop_first();
        lemma_trim_front_range(s2, a - 1);
        assert(s2.subrange(a - 1, s2.len() as int) =~= s.subrange(a, s.len() as int));
    }
}

proof fn lemma_trim_back_range(s: Seq<char>, b: int)
    requires
        0 <= b <= s.len(),
        forall|i: int| b <= i < s.len() ==> is_space_char(s[i]),
        b > 0 ==> !is_space_char(s[b - 1]),
    ensures
        trim_back(s) == s.subrange(0, b),
    decreases s.len() - b,
{
    if b == s.len() {
        assert(s.subrange(0, s.len() as int) =~= s);
    } else {
        let s2 = s.drop_last();
        lemma_trim_back_range(s2, b);
        assert(s2.subrange(0, b) =~= s.subrange(0, b));
    }
}

/// True when the line `input` confirms the deletion: after trimming
/// whitespace it is `y` or `Y`, and nothing else.
pub fn confirm_deletion(input: &str) -> (r: bool)
    ensures
        r == confirmation_accepted(input@),
{
    let len = input.unicode_len();
    let mut a: usize = 0;
    loop
        invariant
            a <= len,
            len == input@.len(),
            forall|i: int| 0 <= i < a ==> is_space_char(input@[i]),
        ensures
            a <= len,
            len == input@.len(),
            forall|i: int| 0 <= i < a ==> is_space_char(input@[i]),
            a < len ==> !is_space_char(input@[a as int]),
        decreases len - a,
    {
        if a == len {
            break ;
        }
        let c = input.get_char(a);
        if !is_space(c) {
            break ;
        }
        a = a + 1;
    }
    let mut b: usize = len;
    loop
        invariant
            a <= b <= len,
            len == input@.len(),
            forall|i: int| b <= i < len ==> is_space_char(input@[i]),
            a < len ==> !is_space_char(input@[a as int]),
        ensures
            a <= b <= len,
            len == input@.len(),
            forall|i: int| b <= i < len ==> is_space_char(input@[i]),
            b > a ==> !is_space_char(input@[b - 1]),
        decreases b,
    {
        if b == a {
            break ;
        }
        let c = input.get_char(b - 1);
        if !is_space(c) {
            break ;
        }
        b = b - 1;
    }
    proof {
        lemma_trim_front_range(input@, a as int);
        let middle = input@.subrange(a as int, input@.len() as int);
        if b > a {
            assert(!is_space_char(middle[0]));
        }
        lemma_trim_back_range(middle, b as int - a as int);
        assert(middle.subrange(0, b as int - a as int) =~= input@.subrange(a as int, b as int));
        assert(trimmed(input@) == input@.subrange(a as int, b as int));
    }
    if b - a == 1 {
        let c = input.get_char(a);
        proof {
            assert(input@.subrange(a as int, b as int) =~= seq![input@[a as int]]);
            assert(trimmed(input@) == seq![c]);
            if trimmed(input@) == seq!['y'] {
                assert(seq![c][0] == seq!['y'][0]);
            }
            if trimmed(input@) == seq!['Y'] {
                assert(seq![c][0] == seq!['Y'][0]);
            }
        }
        c == 'y' || c == 'Y'
    } else {
        proof {
            assert(trimmed(input@).len() != 1);
            assert(seq!['y'].len() == 1);
            assert(seq!['Y'].len() == 1);
        }
        false
    }
}

/// The directory to remove for the match `path`: its parent when it has
/// one, `path` itself when it is a single component; the executable side
/// of [`deletion_target`].
pub fn deletion_target_of(path: &Vec<String>) -> (target: Vec<String>)
    ensures
        target.deep_view() == deletion_target(path.deep_view()),
{
    let mut target = crate::scan::clone_path(path);
    if target.len() >= 2 {
        target.pop();
    }
    proof {
        assert(target.deep_view() =~= deletion_target(path.deep_view()));
    }
    target
}

/// Decides the remediation step from the match list and the confirmation
/// line. With no matches nothing is asked and nothing is deleted; with a
/// declining answer nothing is deleted; with an affirmative answer the
/// plan lists, in match order, one deletion target per match — the parent
/// of the match when it has one, the match itself otherwise. A failure on
/// one target is the surrounding program's to report; it never removes the
/// later targets from the plan.
pub fn process_cache_modules(paths: &Vec<Vec<String>>, response: &str) -> (plan: RemediationPlan)
    ensures
        paths@.len() == 0 ==> plan is NoMatches,
        paths@.len() > 0 && !confirmation_accepted(response@) ==> plan is Declined,
        paths@.len() > 0 && confirmation_accepted(response@) ==> (plan matches RemediationPlan::Delete(targets)
            && targets.deep_view() == deletion_targets(paths.deep_view())),
{
    if paths.len() == 0 {
        RemediationPlan::NoMatches
    } else if !confirm_deletion(response) {
        RemediationPlan::Declined
    } else {
        let mut targets: Vec<Vec<String>> = Vec::new();
        let mut i: usize = 0;
        while i < paths.len()
            invariant
                i <= paths@.len(),
                targets@.len() == i,
                forall|j: int|
                    0 <= j < i ==> targets.deep_view()[j] == deletion_target(
                        paths.deep_view()[j],
                    ),
            decreases paths@.len() - i,
        {
            let ghost before = targets.deep_view();
            let t = deletion_target_of(&paths[i]);
            targets.push(t);
            proof {
                assert(targets.deep_view() =~= before.push(t.deep_view()));
                assert(paths.deep_view()[i as int] == paths@[i as int].deep_view());
            }
            i = i + 1;
        }
        proof {
            assert(targets.deep_view() =~= deletion_targets(paths.deep_view()));
        }
        RemediationPlan::Delete(targets)
    }
}

} // verus!
