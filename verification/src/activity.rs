//! Activity classification from a file path.
//!
//! The path text is searched for the earliest occurrence of one of the
//! enumerated activity keywords (case-sensitive, exact names). The
//! earliest-starting match wins; if no keyword occurs the path is
//! classified `Unknown`. The search works on the path's UTF-8 bytes;
//! the keywords are ASCII, so a byte-level match coincides with a
//! character-level match.

use vstd::prelude::*;

verus! {

use vstd::string::StringSliceAdditionalSpecFns;

/// The closed set of activity categories.
#[derive(Clone, Copy, Debug, PartialEq, Eq, Structural)]
pub enum Activity {
    Running,
    Cycling,
    Unknown,
}

impl Activity {
    /// The keyword (and storage label) of this activity.
    pub open spec fn spec_label(self) -> Seq<u8> {
        match self {
            Activity::Running => seq![('R' as u8), ('u' as u8), ('n' as u8), ('n' as u8), ('i' as u8), ('n' as u8), ('g' as u8)],
            Activity::Cycling => seq![('C' as u8), ('y' as u8), ('c' as u8), ('l' as u8), ('i' as u8), ('n' as u8), ('g' as u8)],
            Activity::Unknown => seq![('U' as u8), ('n' as u8), ('k' as u8), ('n' as u8), ('o' as u8), ('w' as u8), ('n' as u8)],
        }
    }

    /// The characters of the keyword of this activity.
    pub open spec fn spec_label_chars(self) -> Seq<char> {
        match self {
            Activity::Running => seq!['R', 'u', 'n', 'n', 'i', 'n', 'g'],
            Activity::Cycling => seq!['C', 'y', 'c', 'l', 'i', 'n', 'g'],
            Activity::Unknown => seq!['U', 'n', 'k', 'n', 'o', 'w', 'n'],
        }
    }

    /// The textual label of this activity, as stored in the `workouts` table.
    pub fn label(&self) -> (r: &'static str)
        ensures
            r@ == self.spec_label_chars(),
    {
        match self {
            Activity::Running => {
                let r = "Running";
                proof {
                    reveal_strlit("Running");
                    assert(r@ =~= self.spec_label_chars());
                }
                r
            },
            Activity::Cycling => {
                let r = "Cycling";
                proof {
                    reveal_strlit("Cycling");
                    assert(r@ =~= self.spec_label_chars());
                }
                r
            },
            Activity::Unknown => {
                let r = "Unknown";
                proof {
                    reveal_strlit("Unknown");
                    assert(r@ =~= self.spec_label_chars());
                }
                r
            },
        }
    }
}

/// The keyword of activity `a` occurs in `s` starting at position `i`.
pub open spec fn kw_matches_at(s: Seq<u8>, a: Activity, i: int) -> bool {
    &&& 0 <= i
    &&& i + 7 <= s.len()
    &&& s.subrange(i, i + 7) == a.spec_label()
}

/// Some activity keyword occurs in `s` starting at position `i`.
pub open spec fn any_kw_at(s: Seq<u8>, i: int) -> bool {
    ||| kw_matches_at(s, Activity::Running, i)
    ||| kw_matches_at(s, Activity::Cycling, i)
    ||| kw_matches_at(s, Activity::Unknown, i)
}

/// The activity of the earliest keyword occurrence at or after position
/// `i`, or `Unknown` when none occurs. No keyword is a prefix of
/// another, so at most one keyword can start at a given position.
pub open spec fn activity_from(s: Seq<u8>, i: int) -> Activity
    decreases s.len() - i,
{
    if i < 0 || i >= s.len() {
        Activity::Unknown
    } else if kw_matches_at(s, Activity::Running, i) {
        Activity::Running
    } else if kw_matches_at(s, Activity::Cycling, i) {
        Activity::Cycling
    } else if kw_matches_at(s, Activity::Unknown, i) {
        Activity::Unknown
    } else {
        activity_from(s, i + 1)
    }
}

/// The classification of a whole path text: the activity whose keyword
/// occurs earliest, or `Unknown` when no keyword occurs.
pub open spec fn spec_activity_of(s: Seq<u8>) -> Activity {
    activity_from(s, 0)
}

/// The bytes of the keyword of `a` occur in `s` at position `i`.
fn kw_check(s: &[u8], i: usize, a: Activity) -> (r: bool)
    requires
        i < s@.len(),
    ensures
        r == kw_matches_at(s@, a, i as int),
{
    if s.len() - i < 7 {
        return false;
    }
    let w: [u8; 7] = match a {
        Activity::Running => [('R' as u8), ('u' as u8), ('n' as u8), ('n' as u8), ('i' as u8), ('n' as u8), ('g' as u8)],
        Activity::Cycling => [('C' as u8), ('y' as u8), ('c' as u8), ('l' as u8), ('i' as u8), ('n' as u8), ('g' as u8)],
        Activity::Unknown => [('U' as u8), ('n' as u8), ('k' as u8), ('n' as u8), ('o' as u8), ('w' as u8), ('n' as u8)],
    };
    let r = s[i] == w[0] && s[i + 1] == w[1] && s[i + 2] == w[2] && s[i + 3] == w[3] && s[i + 4]
        == w[4] && s[i + 5] == w[5] && s[i + 6] == w[6];
    proof {
        if r {
            assert(s@.subrange(i as int, i + 7) =~= a.spec_label());
        } else {
            assert(s@.subrange(i as int, i + 7) != a.spec_label()) by {
                if s@.subrange(i as int, i + 7) == a.spec_label() {
                    assert(forall|k: int|
                        0 <= k < 7 ==> s@.subrange(i as int, i + 7)[k] == a.spec_label()[k]);
                }
            }
        }
    }
    r
}

/// Classify a path: the activity whose keyword starts earliest in the
/// path text, or `Unknown` when no keyword occurs. Classifying a path
/// as `Unknown` is a valid outcome, not an error: the caller skips such
/// a file without constructing a workout.
pub fn get_activity(path: &str) -> (r: Activity)
    ensures
        r == spec_activity_of(path.spec_bytes()),
{
    let s: &[u8] = path.as_bytes();
    let n: usize = s.len();
    let mut i: usize = 0;
    while i < n
        invariant
            s@ == path.spec_bytes(),
            n == s@.len(),
            i <= n,
            activity_from(s@, 0) == activity_from(s@, i as int),
        decreases n - i,
    {
        if kw_check(s, i, Activity::Running) {
            return Activity::Running;
        }
        if kw_check(s, i, Activity::Cycling) {
            return Activity::Cycling;
        }
        if kw_check(s, i, Activity::Unknown) {
            return Activity::Unknown;
        }
        i = i + 1;
    }
    Activity::Unknown
}

/// If the keyword of `a` occurs at position `i` and no keyword occurs
/// at any earlier position, the whole path classifies as `a`. In
/// particular a path containing exactly one keyword occurrence
/// classifies as that keyword's activity.
pub proof fn lemma_activity_earliest(s: Seq<u8>, a: Activity, i: int)
    requires
        kw_matches_at(s, a, i),
        forall|j: int| 0 <= j < i ==> !any_kw_at(s, j),
    ensures
        spec_activity_of(s) == a,
{
    lemma_activity_earliest_from(s, a, i, 0);
}

/// A path in which no keyword occurs anywhere classifies as `Unknown`.
pub proof fn lemma_activity_none(s: Seq<u8>)
    requires
        forall|j: int| !any_kw_at(s, j),
    ensures
        spec_activity_of(s) == Activity::Unknown,
{
    lemma_activity_none_from(s, 0);
}

proof fn lemma_activity_earliest_from(s: Seq<u8>, a: Activity, i: int, k: int)
    requires
        kw_matches_at(s, a, i),
        forall|j: int| 0 <= j < i ==> !any_kw_at(s, j),
        0 <= k <= i,
    ensures
        activity_from(s, k) == a,
    decreases i - k,
{
    if k == i {
        assert(kw_matches_at(s, a, i));
        if a != Activity::Running && kw_matches_at(s, Activity::Running, i) {
            assert(s.subrange(i, i + 7)[0] == a.spec_label()[0]);
            assert(false);
        }
        if a == Activity::Unknown && kw_matches_at(s, Activity::Cycling, i) {
            assert(s.subrange(i, i + 7)[0] == a.spec_label()[0]);
            assert(false);
        }
    } else {
        assert(!any_kw_at(s, k));
        lemma_activity_earliest_from(s, a, i, k + 1);
    }
}

proof fn lemma_activity_none_from(s: Seq<u8>, k: int)
    requires
        forall|j: int| !any_kw_at(s, j),
        0 <= k,
    ensures
        activity_from(s, k) == Activity::Unknown,
    decreases s.len() - k,
{
    if k < s.len() {
        assert(!any_kw_at(s, k));
        lemma_activity_none_from(s, k + 1);
    }
}

} // verus!
