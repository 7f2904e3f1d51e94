//! Prefix-span splitter: consumes a lexicographically sorted stream of
//! file paths relative to a base directory and detects contiguous runs
//! sharing a common `/`-delimited path prefix, finalizing each run's
//! prefix exactly when the shared prefix would become empty.
use vstd::prelude::*;
use crate::paths::common_prefix;
use crate::paths::common_prefix_between;
use crate::paths::dirname;
use crate::paths::dirname_spec;

verus! {

/// The running prefix after one more path is seen: an empty prefix is
/// seeded from the path's directory; a path that still shares a prefix
/// narrows the prefix to the shared part; a path that shares nothing
/// ends the run and re-seeds from its directory.
pub open spec fn span_next(prefix: Seq<char>, path: Seq<char>) -> Seq<char> {
    if prefix.len() == 0 {
        dirname_spec(path)
    } else if common_prefix(prefix, path).len() == 0 {
        dirname_spec(path)
    } else {
        common_prefix(prefix, path)
    }
}

/// The prefix finalized by one more path, if any: the running prefix is
/// emitted exactly when it is non-empty and shares nothing with the
/// incoming path.
pub open spec fn span_emit(prefix: Seq<char>, path: Seq<char>) -> Option<Seq<char>> {
    if prefix.len() > 0 && common_prefix(prefix, path).len() == 0 {
        Option::Some(prefix)
    } else {
        Option::None
    }
}

/// The view of an optionally emitted prefix.
pub open spec fn emitted_view(emit: Option<String>) -> Option<Seq<char>> {
    match emit {
        Option::Some(p) => Option::Some(p@),
        Option::None => Option::None,
    }
}

/// Detects group boundaries in a sorted path stream by maintaining the
/// longest common `/`-delimited prefix of the paths seen since the last
/// boundary.
pub struct PrefixSpanSplitter {
    prefix: String,
}

impl PrefixSpanSplitter {
    /// The running common prefix.
    pub closed spec fn prefix_view(&self) -> Seq<char> {
        self.prefix@
    }

    /// A fresh splitter with no running prefix.
    pub fn new() -> (s: Self)
        ensures
            s.prefix_view() == Seq::<char>::empty(),
    {
        PrefixSpanSplitter { prefix: String::new() }
    }

    /// Sees one more relative path. Returns the finalized prefix when
    /// the path ends the current run, in which case the splitter is
    /// re-seeded from the path's directory.
    pub fn push(&mut self, rel_path: &str) -> (emit: Option<String>)
        ensures
            final(self).prefix_view() == span_next(old(self).prefix_view(), rel_path@),
            emitted_view(emit) == span_emit(old(self).prefix_view(), rel_path@),
    {
        if self.prefix.as_str().is_empty() {
            self.prefix = dirname(rel_path);
            Option::None
        } else {
            let next = common_prefix_between(self.prefix.as_str(), rel_path);
            if next.as_str().is_empty() {
                let finished = self.prefix.clone();
                self.prefix = dirname(rel_path);
                Option::Some(finished)
            } else {
                self.prefix = next;
                Option::None
            }
        }
    }

    /// Ends the stream: returns the running prefix when one is left,
    /// leaving the splitter empty.
    pub fn finish(&mut self) -> (emit: Option<String>)
        ensures
            final(self).prefix_view() == Seq::<char>::empty(),
            emitted_view(emit) == (if old(self).prefix_view().len() > 0 {
                Option::Some(old(self).prefix_view())
            } else {
                Option::<Seq<char>>::None
            }),
    {
        if self.prefix.as_str().is_empty() {
            Option::None
        } else {
            let finished = self.prefix.clone();
            self.prefix = String::new();
            Option::Some(finished)
        }
    }
}

} // verus!
