//! Entries and the depth-first walker that produces them.
//!
//! The walker keeps an explicit stack of pending entries.  Popping an
//! entry may call for its directory to be read; the caller reads it and
//! hands the children back, and the walker filters them, sorts them, and
//! stacks them so that pre-order, ascending-name emission results.

use vstd::prelude::*;

use crate::tree::Config;
use crate::glob::{glob_match, pattern_of, GlobPattern};
use crate::order::lex_le;
use vstd::string::StrSliceExecFns;

verus! {

/// What the traversal reads from a node's metadata, with a metadata read
/// failure kept as a value of its own.
#[derive(Clone, Copy, PartialEq, Eq, Structural)]
pub enum FileMeta {
    /// A directory.
    Dir,
    /// A regular file with its length and executable bit.
    File { size: u64, executable: bool },
    /// Something else: a symbolic link, a socket, a device.
    Other,
    /// The metadata could not be read.
    Error,
}

/// One filesystem node met during traversal.
pub struct FileItem {
    /// The node's name.
    pub file_name: String,
    /// The full path, kept only so the caller can read the directory.
    pub path: String,
    /// What the metadata said, or that it could not be read.
    pub meta: FileMeta,
    /// Depth below the root; the root itself is at level zero.
    pub level: usize,
    /// Whether this is the last entry of its directory in listing order.
    pub is_last: bool,
}

impl FileItem {
    pub fn new(file_name: String, path: String, meta: FileMeta, level: usize, is_last: bool) -> (
        r: FileItem)
        ensures
            r.file_name == file_name,
            r.path == path,
            r.meta == meta,
            r.level == level,
            r.is_last == is_last,
    {
        FileItem { file_name, path, meta, level, is_last }
    }

    /// An exact copy of the entry.
    pub fn duplicate(&self) -> (r: FileItem)
        ensures
            r == *self,
    {
        FileItem {
            file_name: self.file_name.clone(),
            path: self.path.clone(),
            meta: self.meta,
            level: self.level,
            is_last: self.is_last,
        }
    }

    /// A node counts as a directory only when its metadata was read and
    /// said so.
    pub fn is_dir(&self) -> (r: bool)
        ensures
            r == (self.meta is Dir),
    {
        match self.meta {
            FileMeta::Dir => true,
            _ => false,
        }
    }
}

/// Whether a name passes the include pattern: no pattern admits every
/// name.
pub open spec fn spec_glob_included(pat: Option<Seq<char>>, name: Seq<char>) -> bool {
    match pat {
        Option::Some(p) => glob_match(p, name),
        Option::None => true,
    }
}

/// Whether a name is shut out by the exclude pattern: no pattern shuts
/// out nothing.
pub open spec fn spec_glob_excluded(pat: Option<Seq<char>>, name: Seq<char>) -> bool {
    match pat {
        Option::Some(p) => glob_match(p, name),
        Option::None => false,
    }
}

/// Whether an entry enters the traversal: hidden names only when asked,
/// directories always otherwise, and other entries as the two patterns
/// say.
pub open spec fn spec_included(
    show_hidden: bool,
    inc: Option<Seq<char>>,
    exc: Option<Seq<char>>,
    name: Seq<char>,
    is_dir: bool,
) -> bool {
    if !show_hidden && name.len() > 0 && name[0] == '.' {
        false
    } else if is_dir {
        true
    } else {
        spec_glob_included(inc, name) && !spec_glob_excluded(exc, name)
    }
}

/// The fields of an entry that a directory listing determines; level and
/// sibling position are the walker's to assign.
pub open spec fn child_key(it: FileItem) -> (Seq<char>, Seq<char>, FileMeta) {
    (it.file_name@, it.path@, it.meta)
}

/// The children that pass the filter, in their given order.
pub open spec fn included_children(
    show_hidden: bool,
    inc: Option<Seq<char>>,
    exc: Option<Seq<char>>,
    children: Seq<FileItem>,
) -> Seq<FileItem> {
    children.filter(
        |c: FileItem| spec_included(show_hidden, inc, exc, c.file_name@, c.meta is Dir),
    )
}

/// Siblings in descending name order: the order in which they are
/// stacked, so that they pop in ascending order.
pub open spec fn sorted_desc(s: Seq<FileItem>) -> bool {
    forall|i: int, j: int|
        0 <= i < j < s.len() ==> lex_le(#[trigger] s[j].file_name@, #[trigger] s[i].file_name@)
}

/// Siblings in ascending name order: the order in which they are
/// printed.
pub open spec fn sorted_asc(s: Seq<FileItem>) -> bool {
    forall|i: int, j: int|
        0 <= i < j < s.len() ==> lex_le(#[trigger] s[i].file_name@, #[trigger] s[j].file_name@)
}

/// A block of siblings stacked in descending name order comes back off
/// the stack reversed, that is, in ascending name order: together with
/// `push_dir`'s ordering this keeps sibling emission ascending.
pub proof fn lemma_desc_pops_ascending(s: Seq<FileItem>)
    requires
        sorted_desc(s),
    ensures
        sorted_asc(s.reverse()),
{
    let r = s.reverse();
    assert forall|i: int, j: int| 0 <= i < j < r.len() implies lex_le(
        #[trigger] r[i].file_name@,
        #[trigger] r[j].file_name@,
    ) by {
        assert(r[i] == s[s.len() - 1 - i]);
        assert(r[j] == s[s.len() - 1 - j]);
    }
}

/// The walker: an explicit stack of pending entries plus the parts of the
/// configuration that steer expansion.
pub struct FileIterator {
    queue: std::collections::VecDeque<FileItem>,
    show_hidden: bool,
    max_level: usize,
    include_glob: Option<GlobPattern>,
    exclude_glob: Option<GlobPattern>,
}

impl FileIterator {
    /// The pending entries, bottom of the stack first.
    pub closed spec fn queue_spec(&self) -> Seq<FileItem> {
        self.queue@
    }

    pub closed spec fn show_hidden_spec(&self) -> bool {
        self.show_hidden
    }

    pub closed spec fn max_level_spec(&self) -> nat {
        self.max_level as nat
    }

    pub closed spec fn include_spec(&self) -> Option<Seq<char>> {
        pattern_of(self.include_glob)
    }

    pub closed spec fn exclude_spec(&self) -> Option<Seq<char>> {
        pattern_of(self.exclude_glob)
    }

    /// The walker's configuration did not change across a call.
    pub open spec fn same_config(pre: &FileIterator, post: &FileIterator) -> bool {
        &&& post.show_hidden_spec() == pre.show_hidden_spec()
        &&& post.max_level_spec() == pre.max_level_spec()
        &&& post.include_spec() == pre.include_spec()
        &&& post.exclude_spec() == pre.exclude_spec()
    }

    /// A walker holding only the root entry.
    pub fn new(root: FileItem, config: &Config) -> (r: FileIterator)
        ensures
            r.queue_spec() =~= seq![root],
            r.show_hidden_spec() == config@.show_all,
            r.max_level_spec() == config@.max_level,
            r.include_spec() == config@.include_pat,
            r.exclude_spec() == config@.exclude_pat,
    {
        let mut queue = std::collections::VecDeque::new();
        queue.push_back(root);
        FileIterator {
            queue,
            show_hidden: config.show_all,
            max_level: config.max_level,
            include_glob: match &config.include_glob {
                Some(g) => Some(g.duplicate()),
                None => None,
            },
            exclude_glob: match &config.exclude_glob {
                Some(g) => Some(g.duplicate()),
                None => None,
            },
        }
    }

    /// Pops the entry on top of the stack; the tree is exhausted when
    /// nothing is left.
    pub fn pop_next(&mut self) -> (r: Option<FileItem>)
        ensures
            FileIterator::same_config(old(self), final(self)),
            old(self).queue_spec().len() == 0 ==> r is None && final(self).queue_spec()
                == old(self).queue_spec(),
            old(self).queue_spec().len() > 0 ==> r == Some(old(self).queue_spec().last())
                && final(self).queue_spec() == old(self).queue_spec().drop_last(),
    {
        self.queue.pop_back()
    }

    /// Whether the entry just popped calls for its directory to be read:
    /// it is a directory and lies above the depth limit.
    pub fn should_expand(&self, item: &FileItem) -> (r: bool)
        ensures
            r == (item.meta is Dir && (item.level as nat) < self.max_level_spec()),
    {
        item.is_dir() && item.level < self.max_level
    }

    /// Whether a name passes the include pattern.
    pub fn is_glob_included(&self, file_name: &str) -> (r: bool)
        ensures
            r == spec_glob_included(self.include_spec(), file_name@),
    {
        match &self.include_glob {
            Some(glob) => glob.is_match(file_name),
            None => true,
        }
    }

    /// Whether a name is shut out by the exclude pattern.
    pub fn is_glob_excluded(&self, file_name: &str) -> (r: bool)
        ensures
            r == spec_glob_excluded(self.exclude_spec(), file_name@),
    {
        match &self.exclude_glob {
            Some(glob) => glob.is_match(file_name),
            None => false,
        }
    }

    /// Whether an entry enters the traversal at all.
    pub fn is_included(&self, name: &str, is_dir: bool) -> (r: bool)
        ensures
            r == spec_included(
                self.show_hidden_spec(),
                self.include_spec(),
                self.exclude_spec(),
                name@,
                is_dir,
            ),
    {
        if !self.show_hidden && starts_with_dot(name) {
            return false;
        }
        if is_dir {
            true
        } else {
            self.is_glob_included(name) && !self.is_glob_excluded(name)
        }
    }
}

impl FileIterator {
    /// Filters, sorts and stacks the children of a just-expanded
    /// directory.  The children that pass `is_included` end on the stack
    /// in descending name order, each one level below `item`, with the
    /// name-wise last sibling (the first stacked) flagged as such.
    pub fn push_dir(&mut self, item: &FileItem, children: Vec<FileItem>)
        requires
            (item.level as nat) < old(self).max_level_spec(),
        ensures
            FileIterator::same_config(old(self), final(self)),
            final(self).queue_spec().len() == old(self).queue_spec().len() + included_children(
                old(self).show_hidden_spec(),
                old(self).include_spec(),
                old(self).exclude_spec(),
                children@,
            ).len(),
            final(self).queue_spec().take(old(self).queue_spec().len() as int) == old(
                self,
            ).queue_spec(),
            ({
                let b = final(self).queue_spec().skip(old(self).queue_spec().len() as int);
                let inc = included_children(
                    old(self).show_hidden_spec(),
                    old(self).include_spec(),
                    old(self).exclude_spec(),
                    children@,
                );
                &&& keys_of(b).to_multiset() == keys_of(inc).to_multiset()
                &&& sorted_desc(b)
                &&& forall|i: int|
                    0 <= i < b.len() ==> (#[trigger] b[i]).level as nat == item.level as nat + 1
                &&& forall|i: int| 0 <= i < b.len() ==> (#[trigger] b[i]).is_last == (i == 0)
            }),
    {
        let ghost sh = self.show_hidden_spec();
        let ghost inc_pat = self.include_spec();
        let ghost exc_pat = self.exclude_spec();
        let ghost kids = children@;
        let new_level = item.level + 1;
        let mut rest = children;
        let n_children = rest.len();
        let mut kept: Vec<FileItem> = Vec::new();
        let mut idx: usize = 0;
        while rest.len() > 0
            invariant
                kids.len() == n_children,
                idx + rest@.len() == kids.len(),
                rest@ == kids.skip(idx as int),
                keys_of(kept@) == keys_of(included_children(sh, inc_pat, exc_pat, kids.take(idx as int))),
                forall|k: int|
                    0 <= k < kept@.len() ==> (#[trigger] kept@[k]).level == new_level
                        && !kept@[k].is_last,
                self.show_hidden_spec() == sh,
                self.include_spec() == inc_pat,
                self.exclude_spec() == exc_pat,
                self == old(self),
            decreases rest@.len(),
        {
            let c = rest.remove(0);
            proof {
                assert(c == kids[idx as int]);
                assert(kids.skip(idx as int).drop_first() =~= kids.skip(idx + 1));
            }
            let cd = c.is_dir();
            let ghost kept_pre = kept@;
            if self.is_included(c.file_name.as_str(), cd) {
                kept.push(
                    FileItem {
                        file_name: c.file_name,
                        path: c.path,
                        meta: c.meta,
                        level: new_level,
                        is_last: false,
                    },
                );
            }
            proof {
                broadcast use vstd::prelude::Seq::lemma_filter_push;
                broadcast use vstd::prelude::Seq::lemma_push_map_commute;

                assert(kids.take(idx + 1) =~= kids.take(idx as int).push(kids[idx as int]));
                let pred = |x: FileItem|
                    spec_included(sh, inc_pat, exc_pat, x.file_name@, x.meta is Dir);
                if spec_included(sh, inc_pat, exc_pat, c.file_name@, c.meta is Dir) {
                    assert(keys_of(kept@) =~= keys_of(kept_pre).push(child_key(c)));
                    assert(included_children(sh, inc_pat, exc_pat, kids.take(idx + 1))
                        == included_children(sh, inc_pat, exc_pat, kids.take(idx as int)).push(c));
                    assert(keys_of(
                        included_children(sh, inc_pat, exc_pat, kids.take(idx as int)).push(c),
                    ) =~= keys_of(included_children(sh, inc_pat, exc_pat, kids.take(idx as int))).push(
                        child_key(c),
                    ));
                } else {
                    assert(included_children(sh, inc_pat, exc_pat, kids.take(idx + 1))
                        == included_children(sh, inc_pat, exc_pat, kids.take(idx as int)));
                }
            }
            idx = idx + 1;
        }
        proof {
            assert(kids.take(kids.len() as int) =~= kids);
        }
        let ghost kept_all = kept@;
        let mut sorted = sort_desc(kept);
        proof {
            lemma_keys_multiset(sorted@, kept_all);
            assert forall|k: int| 0 <= k < sorted@.len() implies (#[trigger] sorted@[k]).level
                == new_level && !sorted@[k].is_last by {
                broadcast use vstd::seq_lib::to_multiset_contains;

                assert(sorted@.contains(sorted@[k]));
                assert(sorted@.to_multiset().count(sorted@[k]) > 0);
                assert(kept_all.contains(sorted@[k]));
            }
        }
        let ghost b0 = sorted@;
        let ghost q0 = self.queue@;
        let n_sorted = sorted.len();
        let mut first = true;
        let mut pushed: usize = 0;
        while sorted.len() > 0
            invariant
                b0.len() == n_sorted,
                pushed + sorted@.len() == b0.len(),
                sorted@ == b0.skip(pushed as int),
                first == (pushed == 0),
                self.queue@.len() == q0.len() + pushed,
                self.queue@.take(q0.len() as int) == q0,
                forall|k: int|
                    0 <= k < pushed ==> #[trigger] self.queue@[q0.len() + k] == with_last_flag(
                        b0[k],
                        k == 0,
                    ),
                self.show_hidden_spec() == sh,
                self.include_spec() == inc_pat,
                self.exclude_spec() == exc_pat,
                self.max_level_spec() == old(self).max_level_spec(),
            decreases sorted@.len(),
        {
            let mut c = sorted.remove(0);
            proof {
                assert(c == b0[pushed as int]);
                assert(b0.skip(pushed as int).drop_first() =~= b0.skip(pushed + 1));
            }
            c.is_last = first;
            first = false;
            let ghost q_pre = self.queue@;
            self.queue.push_back(c);
            proof {
                assert(self.queue@.take(q0.len() as int) =~= q_pre.take(q0.len() as int));
                assert(self.queue@[q0.len() + pushed as int] == c);
                assert(c == with_last_flag(b0[pushed as int], pushed == 0));
            }
            pushed = pushed + 1;
        }
        proof {
            let b = self.queue@.skip(q0.len() as int);
            assert(b.len() == b0.len());
            assert forall|k: int| 0 <= k < b.len() implies #[trigger] b[k] == with_last_flag(
                b0[k],
                k == 0,
            ) by {
                assert(b[k] == self.queue@[q0.len() + k]);
            }
            assert(keys_of(b) =~= keys_of(b0));
            assert forall|i: int, j: int| 0 <= i < j < b.len() implies lex_le(
                (#[trigger] b[j]).file_name@,
                (#[trigger] b[i]).file_name@,
            ) by {
                assert(b[i].file_name == b0[i].file_name);
                assert(b[j].file_name == b0[j].file_name);
                assert(lex_le(b0[j].file_name@, b0[i].file_name@));
            }
        }
    }
}

/// The same entry with its last-sibling flag set as given.
pub open spec fn with_last_flag(it: FileItem, flag: bool) -> FileItem {
    FileItem {
        file_name: it.file_name,
        path: it.path,
        meta: it.meta,
        level: it.level,
        is_last: flag,
    }
}

/// The listing-determined fields of each entry, in order.
pub open spec fn keys_of(s: Seq<FileItem>) -> Seq<(Seq<char>, Seq<char>, FileMeta)> {
    s.map_values(|c: FileItem| child_key(c))
}

/// Two sequences with the same entries have the same listing-determined
/// fields, as multisets.
proof fn lemma_keys_multiset(s1: Seq<FileItem>, s2: Seq<FileItem>)
    requires
        s1.to_multiset() == s2.to_multiset(),
    ensures
        keys_of(s1).to_multiset() == keys_of(s2).to_multiset(),
    decreases s1.len(),
{
    broadcast use vstd::seq_lib::group_to_multiset_ensures;
    broadcast use vstd::multiset::group_multiset_axioms;

    assert(s1.to_multiset().len() == s1.len());
    assert(s2.to_multiset().len() == s2.len());
    if s1.len() == 0 {
        assert(keys_of(s1) =~= keys_of(s2));
    } else {
        let x = s1.last();
        let ck = child_key(x);
        assert(s1.contains(x));
        assert(s1.to_multiset().count(x) > 0);
        assert(s2.to_multiset().count(x) > 0);
        assert(s2.contains(x));
        let j = choose|j: int| 0 <= j < s2.len() && s2[j] == x;
        let r1 = s1.drop_last();
        let r2 = s2.remove(j);
        assert(s1.remove(s1.len() - 1) =~= r1);
        assert(r1.to_multiset() == s1.to_multiset().remove(x));
        assert(r2.to_multiset() == s2.to_multiset().remove(x));
        lemma_keys_multiset(r1, r2);
        // the left side grows by the key of x when x is pushed back on
        assert(r1.push(x) =~= s1);
        assert(keys_of(r1).push(ck) =~= keys_of(s1));
        assert(keys_of(s1).to_multiset() == keys_of(r1).to_multiset().insert(ck));
        // the right side shrinks by the same key when position j is removed
        assert(keys_of(r2) =~= keys_of(s2).remove(j));
        assert(keys_of(s2)[j] == ck);
        assert(keys_of(s2).remove(j).to_multiset() == keys_of(s2).to_multiset().remove(ck));
        assert(keys_of(s2).contains(ck));
        assert(keys_of(s2).to_multiset().count(ck) > 0);
        assert(keys_of(s2).to_multiset().remove(ck).insert(ck) =~= keys_of(s2).to_multiset());
        assert(keys_of(s1).to_multiset() == keys_of(s2).to_multiset());
    }
}

/// Inserts one entry into a descending run, keeping it descending.
fn insert_sorted_desc(v: &mut Vec<FileItem>, item: FileItem)
    requires
        sorted_desc(old(v)@),
    ensures
        sorted_desc(final(v)@),
        final(v)@.len() == old(v)@.len() + 1,
        final(v)@.to_multiset() == old(v)@.to_multiset().insert(item),
{
    let ghost orig = v@;
    let len = v.len();
    let mut idx: usize = 0;
    while idx < len && !crate::order::str_lex_le(v[idx].file_name.as_str(), item.file_name.as_str())
        invariant
            v@ == orig,
            len == orig.len(),
            idx <= len,
            sorted_desc(orig),
            forall|j: int| 0 <= j < idx ==> !lex_le((#[trigger] orig[j]).file_name@, item.file_name@),
        decreases len - idx,
    {
        idx = idx + 1;
    }
    proof {
        assert(idx == len || lex_le(orig[idx as int].file_name@, item.file_name@));
    }
    v.insert(idx, item);
    proof {
        broadcast use vstd::seq_lib::to_multiset_insert;

        orig.insert_ensures(idx as int, item);
        assert(v@.to_multiset() =~= orig.to_multiset().insert(item));
        assert forall|i: int, j: int| 0 <= i < j < v@.len() implies lex_le(
            (#[trigger] v@[j]).file_name@,
            (#[trigger] v@[i]).file_name@,
        ) by {
            let n = item.file_name@;
            if j < idx {
                assert(v@[i] == orig[i] && v@[j] == orig[j]);
            } else if i < idx && j == idx {
                assert(v@[i] == orig[i] && v@[j] == item);
                crate::order::lemma_lex_le_total(orig[i].file_name@, n);
            } else if i < idx && j > idx {
                assert(v@[i] == orig[i] && v@[j] == orig[j - 1]);
                if j - 1 == i {
                    crate::order::lemma_lex_le_total(orig[i].file_name@, n);
                    crate::order::lemma_lex_le_trans(orig[j - 1].file_name@, n, orig[i].file_name@);
                }
            } else if i == idx {
                assert(v@[i] == item && v@[j] == orig[j - 1]);
                assert(idx < len);
                assert(lex_le(orig[idx as int].file_name@, n));
                if j - 1 > idx {
                    crate::order::lemma_lex_le_trans(
                        orig[j - 1].file_name@,
                        orig[idx as int].file_name@,
                        n,
                    );
                }
            } else {
                assert(v@[i] == orig[i - 1] && v@[j] == orig[j - 1]);
            }
        }
    }
}

/// Sorts entries into descending name order.
fn sort_desc(items: Vec<FileItem>) -> (r: Vec<FileItem>)
    ensures
        sorted_desc(r@),
        r@.to_multiset() == items@.to_multiset(),
        r@.len() == items@.len(),
{
    broadcast use vstd::seq_lib::group_to_multiset_ensures;

    let ghost orig = items@;
    let mut rest = items;
    let mut out: Vec<FileItem> = Vec::new();
    while rest.len() > 0
        invariant
            sorted_desc(out@),
            out@.to_multiset().add(rest@.to_multiset()) == orig.to_multiset(),
            out@.len() + rest@.len() == orig.len(),
        decreases rest@.len(),
    {
        let ghost rest_pre = rest@;
        let ghost out_pre = out@;
        let it = rest.remove(0);
        proof {
            vstd::seq_lib::to_multiset_remove(rest_pre, 0);
            vstd::seq_lib::to_multiset_contains(rest_pre, it);
            assert(rest_pre.contains(it));
        }
        insert_sorted_desc(&mut out, it);
        proof {
            assert(out@.to_multiset().add(rest@.to_multiset()) =~= out_pre.to_multiset().add(
                rest_pre.to_multiset(),
            ));
        }
    }
    out
}

fn starts_with_dot(name: &str) -> (r: bool)
    ensures
        r == (name@.len() > 0 && name@[0] == '.'),
{
    if name.unicode_len() == 0 {
        false
    } else {
        name.get_char(0) == '.'
    }
}

} // verus!
