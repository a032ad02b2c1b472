use vstd::prelude::*;

verus! {

/// What the walk knows of one candidate commit on the first-parent chain.
pub struct CommitMeta {
    pub id: String,
    pub author_name: String,
    pub author_email: String,
    pub has_parent: bool,
}

/// The walk's skip and stop configuration.
pub struct WalkConfig {
    pub include_authors: Vec<String>,
    pub ignore_revs: Vec<String>,
    pub until: Option<String>,
}

/// What to do with one visited commit: skip it and continue to its first
/// parent, stop the walk before processing it, or process its diff.
#[derive(PartialEq, Eq, Structural, Clone, Copy, Debug)]
pub enum WalkAction {
    Skip,
    Stop,
    Process,
}

/// Whether some entry of `v` reads as `s`.
pub open spec fn contains_str(v: Seq<String>, s: Seq<char>) -> bool {
    exists|i: int| 0 <= i < v.len() && v[i]@ == s
}

/// The walk's decision for one commit, in order: an ignored commit is
/// skipped (even when it is the stop boundary); the stop boundary ends the
/// walk before its own diff; with author filters set, a commit matching
/// none of them (by name or email) is skipped; a root commit ends the
/// walk; everything else is processed.
pub open spec fn decision_spec(m: CommitMeta, c: WalkConfig) -> WalkAction {
    if contains_str(c.ignore_revs@, m.id@) {
        WalkAction::Skip
    } else if c.until matches Some(u) && u@ == m.id@ {
        WalkAction::Stop
    } else if c.include_authors@.len() > 0 && !contains_str(c.include_authors@, m.author_name@)
        && !contains_str(c.include_authors@, m.author_email@) {
        WalkAction::Skip
    } else if !m.has_parent {
        WalkAction::Stop
    } else {
        WalkAction::Process
    }
}

/// Whether `v` holds an entry reading as `s`.
fn vec_contains(v: &Vec<String>, s: &String) -> (r: bool)
    ensures
        r == contains_str(v@, s@),
{
    let n = v.len();
    let mut i: usize = 0;
    while i < n
        invariant
            n == v@.len(),
            i <= n,
            forall|t: int| 0 <= t < i ==> (#[trigger] v@[t])@ != s@,
        decreases n - i,
    {
        if v[i].eq(s) {
            return true;
        }
        i += 1;
    }
    false
}

/// Decides what the walk does with one visited commit.
pub fn walk_decision(m: &CommitMeta, c: &WalkConfig) -> (r: WalkAction)
    ensures
        r == decision_spec(*m, *c),
{
    if vec_contains(&c.ignore_revs, &m.id) {
        return WalkAction::Skip;
    }
    match &c.until {
        Some(u) => {
            if u.eq(&m.id) {
                return WalkAction::Stop;
            }
        },
        None => {},
    }
    if c.include_authors.len() > 0 && !vec_contains(&c.include_authors, &m.author_name)
        && !vec_contains(&c.include_authors, &m.author_email) {
        return WalkAction::Skip;
    }
    if !m.has_parent {
        return WalkAction::Stop;
    }
    WalkAction::Process
}

/// Author filters only decide which commits are folded: for two
/// configurations that differ in their author filters alone, the decision
/// for any commit is the same unless one of them skips it.
pub proof fn lemma_author_filter_only_skips(m: CommitMeta, c1: WalkConfig, c2: WalkConfig)
    requires
        c1.ignore_revs@ == c2.ignore_revs@,
        c1.until == c2.until,
    ensures
        decision_spec(m, c1) != decision_spec(m, c2) ==> decision_spec(m, c1) is Skip
            || decision_spec(m, c2) is Skip,
{
}

/// The stop boundary excludes its own diff but no newer commit's: a
/// commit other than the boundary is decided as if no boundary were set,
/// and the boundary itself, unless ignored, stops the walk before its
/// diff is taken.
pub proof fn lemma_until_boundary(m: CommitMeta, c: WalkConfig, u: String)
    requires
        c.until == Some(u),
    ensures
        m.id@ != u@ ==> decision_spec(m, c) == decision_spec(
            m,
            WalkConfig { until: None, include_authors: c.include_authors, ignore_revs: c.ignore_revs },
        ),
        m.id@ == u@ && !contains_str(c.ignore_revs@, m.id@) ==> decision_spec(m, c) is Stop,
{
}

/// A commit in the ignore set is always skipped, whatever its content
/// changes: it contributes no events at all.
pub proof fn lemma_ignored_commit_skipped(m: CommitMeta, c: WalkConfig)
    requires
        contains_str(c.ignore_revs@, m.id@),
    ensures
        decision_spec(m, c) is Skip,
{
}

} // verus!
