//! File-change events: which events count as a write, and how the path of an event
//! is mapped back to the path the configuration watches.
use vstd::prelude::*;
use crate::text::{chars_of, has_prefix, same_text, string_of};
use crate::scheduler::starts_with_text;

verus! {

/// The kinds of file-system event a watcher reports.
#[derive(Debug, Clone, Copy, PartialEq, Eq, Structural)]
pub enum FsEventKind {
    /// A file opened for writing was closed.
    CloseWrite,
    /// Some other access.
    OtherAccess,
    Create,
    Modify,
    Remove,
    Other,
}

/// Whether an event means that a file was written: a close after writing, a
/// modification, or a creation (an editor that saves by renaming a new file into place).
pub fn is_write_event(kind: FsEventKind) -> (r: bool)
    ensures
        r == (kind == FsEventKind::CloseWrite || kind == FsEventKind::Modify || kind
            == FsEventKind::Create),
{
    match kind {
        FsEventKind::CloseWrite | FsEventKind::Modify | FsEventKind::Create => true,
        _ => false,
    }
}

/// The watched paths: each canonical path (symbolic links resolved) with the path
/// as the configuration wrote it.
pub struct WatchRoots {
    pub roots: Vec<(String, String)>,
}

pub open spec fn root_views(rs: Seq<(String, String)>) -> Seq<(Seq<char>, Seq<char>)> {
    rs.map_values(|r: (String, String)| (r.0@, r.1@))
}

/// The first root whose canonical path begins the event path, from position `i` on.
pub open spec fn first_root(rs: Seq<(Seq<char>, Seq<char>)>, path: Seq<char>, i: int) -> int
    decreases rs.len() - i,
{
    if i < 0 || i >= rs.len() {
        -1
    } else if has_prefix(path, rs[i].0) {
        i
    } else {
        first_root(rs, path, i + 1)
    }
}

/// The event path with its canonical root replaced by the configured path, when one
/// of the roots begins it.
pub open spec fn spec_resolve(rs: Seq<(Seq<char>, Seq<char>)>, path: Seq<char>) -> Option<Seq<char>> {
    let i = first_root(rs, path, 0);
    if i < 0 {
        None
    } else {
        Some(rs[i].1 + path.skip(rs[i].0.len() as int))
    }
}

/// The roots after `canonical` is mapped to `configured` (replacing an earlier
/// mapping of the same canonical path in place).
pub open spec fn roots_insert(rs: Seq<(Seq<char>, Seq<char>)>, canonical: Seq<char>, configured: Seq<char>) -> Seq<
    (Seq<char>, Seq<char>),
>
    decreases rs.len(),
{
    if rs.len() == 0 {
        seq![(canonical, configured)]
    } else if rs[0].0 == canonical {
        seq![(canonical, configured)] + rs.drop_first()
    } else {
        seq![rs[0]] + roots_insert(rs.drop_first(), canonical, configured)
    }
}

impl WatchRoots {
    /// No path is watched.
    pub fn new() -> (r: WatchRoots)
        ensures
            root_views(r.roots@) == Seq::<(Seq<char>, Seq<char>)>::empty(),
    {
        let r = WatchRoots { roots: Vec::new() };
        assert(root_views(r.roots@) =~= Seq::<(Seq<char>, Seq<char>)>::empty());
        r
    }

    /// Records that the configured path `configured` resolves to `canonical`.
    pub fn insert(&mut self, canonical: String, configured: String)
        ensures
            root_views(final(self).roots@) == roots_insert(
                root_views(old(self).roots@),
                canonical@,
                configured@,
            ),
    {
        let ghost old_rs = root_views(self.roots@);
        let mut i: usize = 0;
        assert(old_rs.skip(0) =~= old_rs);
        assert(old_rs.take(0) + roots_insert(old_rs, canonical@, configured@) =~= roots_insert(
            old_rs,
            canonical@,
            configured@,
        ));
        while i < self.roots.len()
            invariant
                i <= self.roots.len(),
                self.roots@ == old(self).roots@,
                old_rs == root_views(self.roots@),
                roots_insert(old_rs, canonical@, configured@) == old_rs.take(i as int) + roots_insert(
                    old_rs.skip(i as int),
                    canonical@,
                    configured@,
                ),
            decreases self.roots.len() - i,
        {
            let ghost rest = old_rs.skip(i as int);
            assert(rest.drop_first() =~= old_rs.skip(i + 1));
            if same_text(self.roots[i].0.as_str(), canonical.as_str()) {
                let ghost cv = canonical@;
                let ghost fv = configured@;
                self.roots.set(i, (canonical, configured));
                assert(root_views(self.roots@) =~= old_rs.take(i as int) + (seq![(cv, fv)]
                    + rest.drop_first()));
                return;
            }
            assert(old_rs.take(i as int) + (seq![rest[0]] + roots_insert(rest.drop_first(), canonical@, configured@))
                =~= old_rs.take(i + 1) + roots_insert(old_rs.skip(i + 1), canonical@, configured@));
            i = i + 1;
        }
        let ghost cv = canonical@;
        let ghost fv = configured@;
        self.roots.push((canonical, configured));
        assert(old_rs.skip(i as int) =~= Seq::<(Seq<char>, Seq<char>)>::empty());
        assert(old_rs.take(i as int) =~= old_rs);
        assert(root_views(self.roots@) =~= old_rs + seq![(cv, fv)]);
    }

    /// The configured path an event path falls under: the event path with the first
    /// matching canonical root replaced by its configured path; `None` when no root
    /// begins it.
    pub fn resolve(&self, event_path: &str) -> (r: Option<String>)
        ensures
            match r {
                Some(s) => spec_resolve(root_views(self.roots@), event_path@) == Some(s@),
                None => spec_resolve(root_views(self.roots@), event_path@) is None,
            },
    {
        let ghost rs = root_views(self.roots@);
        let mut i: usize = 0;
        while i < self.roots.len()
            invariant
                i <= self.roots.len(),
                rs == root_views(self.roots@),
                first_root(rs, event_path@, 0) == first_root(rs, event_path@, i as int),
            decreases self.roots.len() - i,
        {
            if starts_with_text(event_path, self.roots[i].0.as_str()) {
                let v = chars_of(event_path);
                let n = self.roots[i].0.as_str().unicode_len();
                let mut out = self.roots[i].1.clone();
                let suffix = string_of(&v, n, v.len());
                out.append(suffix.as_str());
                assert(v@.subrange(n as int, v.len() as int) =~= event_path@.skip(rs[i as int].0.len() as int));
                return Some(out);
            }
            i = i + 1;
        }
        None
    }
}

} // verus!
