//! Traversal configuration, entry counting, and line assembly.

use vstd::prelude::*;
use vstd::string::StringExecFns;

use crate::file_iterator::{
    included_children, keys_of, sorted_desc, FileItem, FileIterator, FileMeta,
};
use crate::filter::{drop_dead, elide, elide_cache, step_cache, step_out, FilteredIterator};
use crate::glob::{pattern_of, GlobPattern};
use crate::order::lex_le;
use crate::symbol::{format_human_readable_size, human_size_chars, prefix_chars, set_line_prefix};

verus! {

/// What one traversal is asked to do, fixed before it starts.
pub struct Config {
    /// Colorize directories, executables and size notes.
    pub colorful: bool,
    /// Include names that start with a dot.
    pub show_all: bool,
    /// Append a bracketed human-readable size to regular files.
    pub size: bool,
    /// Directories at this depth are not expanded further.
    pub max_level: usize,
    /// Only regular files matching this pattern are emitted.
    pub include_glob: Option<GlobPattern>,
    /// Regular files matching this pattern are never emitted.
    pub exclude_glob: Option<GlobPattern>,
}

/// The configuration as contracts see it: plain values, with each glob
/// reduced to its pattern text.
pub ghost struct ConfigView {
    pub colorful: bool,
    pub show_all: bool,
    pub size: bool,
    pub max_level: nat,
    pub include_pat: Option<Seq<char>>,
    pub exclude_pat: Option<Seq<char>>,
}

impl View for Config {
    type V = ConfigView;

    open spec fn view(&self) -> ConfigView {
        ConfigView {
            colorful: self.colorful,
            show_all: self.show_all,
            size: self.size,
            max_level: self.max_level as nat,
            include_pat: pattern_of(self.include_glob),
            exclude_pat: pattern_of(self.exclude_glob),
        }
    }
}

/// Totals printed after the tree: subdirectories and files emitted.
pub struct DirSummary {
    pub num_folders: usize,
    pub num_files: usize,
}

impl DirSummary {
    /// A summary with nothing counted yet.
    pub fn init() -> (s: DirSummary)
        ensures
            s.num_folders == 0,
            s.num_files == 0,
    {
        DirSummary { num_folders: 0, num_files: 0 }
    }
}

/// How a piece of one output line is to be written.
#[derive(Clone, Copy, PartialEq, Eq, Structural)]
pub enum Style {
    /// No styling.
    Plain,
    /// A directory name.
    Directory,
    /// The name of an executable regular file.
    Executable,
    /// The bracketed size after a regular file.
    SizeNote,
}

/// A run of text with one style; a line is a sequence of segments.
pub struct Segment {
    pub text: String,
    pub style: Style,
}

/// A segment as contracts see it.
pub open spec fn seg_view(s: Segment) -> (Seq<char>, Style) {
    (s.text@, s.style)
}

/// A whole line as contracts see it.
pub open spec fn segs_view(l: Seq<Segment>) -> Seq<(Seq<char>, Style)> {
    l.map_values(|s: Segment| seg_view(s))
}

/// How many of the entries are directories.
pub open spec fn count_dirs(s: Seq<FileItem>) -> nat
    decreases s.len(),
{
    if s.len() == 0 {
        0
    } else {
        count_dirs(s.drop_last()) + if s.last().meta is Dir {
            1nat
        } else {
            0nat
        }
    }
}

/// How many of the entries are not directories.
pub open spec fn count_files(s: Seq<FileItem>) -> nat
    decreases s.len(),
{
    if s.len() == 0 {
        0
    } else {
        count_files(s.drop_last()) + if s.last().meta is Dir {
            0nat
        } else {
            1nat
        }
    }
}

/// A count as a machine word: saturated at the largest value the word
/// holds.
pub open spec fn cap_count(n: nat) -> nat {
    if n > usize::MAX as nat {
        usize::MAX as nat
    } else {
        n
    }
}

/// The per-level sibling states after one entry: states deeper than the
/// entry are dropped, a state is opened if the entry went one level
/// down, and the entry's own state records whether siblings follow it.
pub open spec fn switch_update(states: Seq<bool>, level: nat, is_last: bool) -> Seq<bool> {
    let t = if states.len() > level {
        states.take(level as int)
    } else {
        states
    };
    let u = if level > t.len() {
        t.push(true)
    } else {
        t
    };
    if u.len() > 0 {
        u.update(u.len() - 1, !is_last)
    } else {
        u
    }
}

/// The styled text of one output line: the prefix, then the name (plain
/// text with an error marker when the metadata could not be read, else
/// styled by kind), then the optional size note for regular files.
pub open spec fn line_view(states: Seq<bool>, size_on: bool, entry: FileItem) -> Seq<
    (Seq<char>, Style),
> {
    let prefix = (prefix_chars(states), Style::Plain);
    match entry.meta {
        FileMeta::Error => seq![prefix, (entry.file_name@ + " [Error File]"@, Style::Plain)],
        FileMeta::Dir => seq![prefix, (entry.file_name@, Style::Directory)],
        FileMeta::File { size, executable } => {
            let style = if executable {
                Style::Executable
            } else {
                Style::Plain
            };
            if size_on {
                seq![
                    prefix,
                    (entry.file_name@, style),
                    (" ["@ + human_size_chars(size as nat) + "]"@, Style::SizeNote),
                ]
            } else {
                seq![prefix, (entry.file_name@, style)]
            }
        },
        FileMeta::Other => seq![prefix, (entry.file_name@, Style::Plain)],
    }
}

/// The orchestrator: holds the configuration, the per-level sibling
/// states, and the running totals, and turns each emitted entry into one
/// styled line.
pub struct DirTree {
    config: Config,
    summary: DirSummary,
    symbol_switch_list: Vec<bool>,
    prefix: String,
    processed: Ghost<Seq<FileItem>>,
}

impl DirTree {
    /// The configuration the tree was built with.
    pub closed spec fn config_spec(&self) -> ConfigView {
        self.config@
    }

    /// The per-level sibling states, as last updated.
    pub closed spec fn levels_spec(&self) -> Seq<bool> {
        self.symbol_switch_list@
    }

    /// Every entry handed to `process_entry` so far, in order.
    pub closed spec fn processed_spec(&self) -> Seq<FileItem> {
        self.processed@
    }

    #[verifier::type_invariant]
    spec fn wf(&self) -> bool {
        &&& self.summary.num_folders as nat == cap_count(count_dirs(self.processed@))
        &&& self.summary.num_files as nat == cap_count(count_files(self.processed@))
    }

    /// A fresh orchestrator with nothing counted.
    pub fn new(config: Config) -> (r: DirTree)
        ensures
            r.config_spec() == config@,
            r.levels_spec() == Seq::<bool>::empty(),
            r.processed_spec() == Seq::<FileItem>::empty(),
    {
        DirTree {
            config,
            summary: DirSummary::init(),
            symbol_switch_list: Vec::new(),
            prefix: String::new(),
            processed: Ghost(Seq::empty()),
        }
    }

    /// A walker over the tree rooted at `root`, steered by this
    /// configuration.
    pub fn make_walker(&self, root: FileItem) -> (w: FileIterator)
        ensures
            w.queue_spec() =~= seq![root],
            w.show_hidden_spec() == self.config_spec().show_all,
            w.max_level_spec() == self.config_spec().max_level,
            w.include_spec() == self.config_spec().include_pat,
            w.exclude_spec() == self.config_spec().exclude_pat,
    {
        FileIterator::new(root, &self.config)
    }

    /// The filter for this configuration: elision is meaningful only when
    /// an include pattern can empty directories, so without one the
    /// filter passes everything through.
    pub fn make_filter(&self) -> (f: FilteredIterator)
        ensures
            f.cache_spec() == Seq::<FileItem>::empty(),
            f.skip_spec() == (self.config_spec().include_pat is None),
    {
        let mut f = FilteredIterator::new();
        if self.config.include_glob.is_none() {
            f.skip_filter();
        }
        f
    }

    /// Rewrites the sibling states for an entry at `level`: deeper states
    /// fall away, one opens when the entry stepped a level down, and the
    /// entry's own state is set to whether siblings follow it.
    pub fn cal_symbol_switch(
        &self,
        symbol_switch_list: &mut Vec<bool>,
        level: usize,
        is_last: bool,
    )
        ensures
            final(symbol_switch_list)@ == switch_update(
                old(symbol_switch_list)@,
                level as nat,
                is_last,
            ),
    {
        let ghost orig = symbol_switch_list@;
        while symbol_switch_list.len() > level
            invariant
                symbol_switch_list@ == orig.take(symbol_switch_list@.len() as int),
                symbol_switch_list@.len() <= orig.len(),
                level <= symbol_switch_list@.len() || symbol_switch_list@.len() == orig.len(),
            decreases symbol_switch_list@.len(),
        {
            symbol_switch_list.pop();
            proof {
                assert(symbol_switch_list@ =~= orig.take(symbol_switch_list@.len() as int));
            }
        }
        proof {
            if orig.len() > level {
                assert(symbol_switch_list@ == orig.take(level as int));
            } else {
                assert(symbol_switch_list@ =~= orig);
            }
        }
        if level > symbol_switch_list.len() {
            symbol_switch_list.push(true);
        }
        let ghost u = symbol_switch_list@;
        let levels_len = symbol_switch_list.len();
        if levels_len > 0 {
            symbol_switch_list.pop();
            symbol_switch_list.push(!is_last);
            proof {
                assert(symbol_switch_list@ =~= u.update(u.len() - 1, !is_last));
            }
        }
    }

    /// Counts one emitted entry, advances the sibling states, and
    /// assembles its printable line.  Totals saturate at the machine
    /// word.
    pub fn process_entry(&mut self, entry: &FileItem) -> (line: Vec<Segment>)
        ensures
            final(self).config_spec() == old(self).config_spec(),
            final(self).levels_spec() == switch_update(
                old(self).levels_spec(),
                entry.level as nat,
                entry.is_last,
            ),
            final(self).processed_spec() == old(self).processed_spec().push(*entry),
            segs_view(line@) == line_view(
                final(self).levels_spec(),
                old(self).config_spec().size,
                *entry,
            ),
    {
        proof {
            use_type_invariant(&*self);
        }
        let mut tmp = DirTree {
            config: Config {
                colorful: false,
                show_all: false,
                size: false,
                max_level: 0,
                include_glob: None,
                exclude_glob: None,
            },
            summary: DirSummary::init(),
            symbol_switch_list: Vec::new(),
            prefix: String::new(),
            processed: Ghost(Seq::empty()),
        };
        std::mem::swap(self, &mut tmp);
        let DirTree { config, summary, symbol_switch_list: mut levels, prefix: _, processed } =
            tmp;
        let ghost old_processed = processed@;

        self.cal_symbol_switch(&mut levels, entry.level, entry.is_last);

        let is_dir = entry.is_dir();
        let num_folders = if is_dir {
            if summary.num_folders < usize::MAX {
                summary.num_folders + 1
            } else {
                summary.num_folders
            }
        } else {
            summary.num_folders
        };
        let num_files = if !is_dir {
            if summary.num_files < usize::MAX {
                summary.num_files + 1
            } else {
                summary.num_files
            }
        } else {
            summary.num_files
        };

        let mut prefix = String::new();
        set_line_prefix(levels.as_slice(), &mut prefix);

        let mut line: Vec<Segment> = Vec::new();
        line.push(Segment { text: prefix.clone(), style: Style::Plain });
        match entry.meta {
            FileMeta::Error => {
                let mut t = entry.file_name.clone();
                t.append(" [Error File]");
                proof {
                    reveal_strlit(" [Error File]");
                }
                line.push(Segment { text: t, style: Style::Plain });
            },
            FileMeta::Dir => {
                line.push(Segment { text: entry.file_name.clone(), style: Style::Directory });
            },
            FileMeta::File { size, executable } => {
                let style = if executable {
                    Style::Executable
                } else {
                    Style::Plain
                };
                line.push(Segment { text: entry.file_name.clone(), style });
                if config.size {
                    let mut t = " [".to_owned();
                    let sz = format_human_readable_size(size);
                    t.append(sz.as_str());
                    t.append("]");
                    proof {
                        reveal_strlit(" [");
                        reveal_strlit("]");
                    }
                    line.push(Segment { text: t, style: Style::SizeNote });
                }
            },
            FileMeta::Other => {
                line.push(Segment { text: entry.file_name.clone(), style: Style::Plain });
            },
        }

        let ghost new_levels = levels@;
        proof {
            let newp = old_processed.push(*entry);
            assert(newp.drop_last() =~= old_processed);
            assert(newp.last() == *entry);
            assert(count_dirs(newp) == count_dirs(old_processed) + if entry.meta is Dir {
                1nat
            } else {
                0nat
            });
            assert(count_files(newp) == count_files(old_processed) + if entry.meta is Dir {
                0nat
            } else {
                1nat
            });
        }
        *self = DirTree {
            config,
            summary: DirSummary { num_folders, num_files },
            symbol_switch_list: levels,
            prefix,
            processed: Ghost(old_processed.push(*entry)),
        };
        proof {
            assert(old_processed.push(*entry).drop_last() =~= old_processed);
            assert(segs_view(line@) =~= line_view(
                new_levels,
                old(self).config_spec().size,
                *entry,
            ));
        }
        line
    }

    /// Renders one batch of emitted entries, in order.
    pub fn process_batch(&mut self, entries: Vec<FileItem>) -> (lines: Vec<Vec<Segment>>)
        ensures
            final(self).config_spec() == old(self).config_spec(),
            final(self).processed_spec() == old(self).processed_spec() + entries@,
            final(self).levels_spec() == levels_fold(old(self).levels_spec(), entries@),
            lines_views(lines@) == lines_fold(
                old(self).levels_spec(),
                old(self).config_spec().size,
                entries@,
            ),
    {
        let ghost entries0 = entries@;
        let ghost lv0 = self.levels_spec();
        let ghost pr0 = self.processed_spec();
        let ghost cfg0 = self.config_spec();
        let n_entries = entries.len();
        let mut rest = entries;
        let mut lines: Vec<Vec<Segment>> = Vec::new();
        let mut k: usize = 0;
        proof {
            assert(entries0.take(0) =~= Seq::<FileItem>::empty());
            assert(lines_views(lines@) =~= lines_fold(lv0, cfg0.size, entries0.take(0)));
            assert(pr0 + entries0.take(0) =~= pr0);
        }
        while rest.len() > 0
            invariant
                entries0.len() == n_entries,
                k + rest@.len() == entries0.len(),
                rest@ == entries0.skip(k as int),
                self.processed_spec() == pr0 + entries0.take(k as int),
                self.levels_spec() == levels_fold(lv0, entries0.take(k as int)),
                lines_views(lines@) == lines_fold(lv0, cfg0.size, entries0.take(k as int)),
                self.config_spec() == cfg0,
            decreases rest@.len(),
        {
            let e = rest.remove(0);
            proof {
                assert(e == entries0[k as int]);
                assert(entries0.skip(k as int).drop_first() =~= entries0.skip(k + 1));
                assert(entries0.take(k + 1).drop_last() =~= entries0.take(k as int));
                assert(entries0.take(k + 1).last() == e);
            }
            let ghost lines_pre = lines@;
            let segs = self.process_entry(&e);
            let ghost segs0 = segs@;
            lines.push(segs);
            proof {
                assert(self.processed_spec() =~= pr0 + entries0.take(k + 1));
                assert(lines_views(lines@) =~= lines_views(lines_pre).push(segs_view(segs0)));
                assert(lines_views(lines@) =~= lines_fold(lv0, cfg0.size, entries0.take(k + 1)));
            }
            k = k + 1;
        }
        proof {
            assert(entries0.take(entries0.len() as int) =~= entries0);
        }
        lines
    }

    /// Begins printing the tree under `root`: a fresh session over this
    /// configuration, with its own counts and sibling states.
    pub fn print_folders(self, root: FileItem) -> (s: TreeSession)
        ensures
            s.walked_spec() == Seq::<FileItem>::empty(),
            s.printed_spec() == Seq::<FileItem>::empty(),
            s.skip_spec() == (self.config_spec().include_pat is None),
            s.config_spec() == self.config_spec(),
            s.pending_spec() is None,
            s.queue_spec() =~= seq![
                (FileItem {
                    file_name: root.file_name,
                    path: root.path,
                    meta: root.meta,
                    level: 0usize,
                    is_last: true,
                }),
            ],
    {
        let DirTree { config, summary: _, symbol_switch_list: _, prefix: _, processed: _ } = self;
        TreeSession::start(config, root)
    }

    /// The final summary: every non-directory entry counted as a file,
    /// every directory entry but the root counted as a directory.
    pub fn finish(&self) -> (s: DirSummary)
        ensures
            s.num_files as nat == cap_count(count_files(self.processed_spec())),
            s.num_folders as nat == if count_dirs(self.processed_spec()) == 0 {
                0nat
            } else {
                (cap_count(count_dirs(self.processed_spec())) - 1) as nat
            },
    {
        proof {
            use_type_invariant(&*self);
        }
        DirSummary {
            num_folders: if self.summary.num_folders > 0 {
                self.summary.num_folders - 1
            } else {
                0
            },
            num_files: self.summary.num_files,
        }
    }
}


/// Stack levels never decrease from bottom to top: children always sit
/// above shallower pending entries.
pub open spec fn queue_levels_nondecreasing(q: Seq<FileItem>) -> bool {
    forall|i: int, j: int|
        0 <= i < j < q.len() ==> (#[trigger] q[i]).level <= (#[trigger] q[j]).level
}

/// Entries in pre-order level structure: the root at level zero, and no
/// entry more than one level deeper than its predecessor.
pub open spec fn preorder_levels(s: Seq<FileItem>) -> bool {
    &&& s.len() > 0 ==> s[0].level == 0
    &&& forall|i: int| 1 <= i < s.len() ==> 1 <= (#[trigger] s[i]).level <= s[i - 1].level + 1
}

/// The sibling states after a run of entries.
pub open spec fn levels_fold(levels: Seq<bool>, entries: Seq<FileItem>) -> Seq<bool>
    decreases entries.len(),
{
    if entries.len() == 0 {
        levels
    } else {
        switch_update(
            levels_fold(levels, entries.drop_last()),
            entries.last().level as nat,
            entries.last().is_last,
        )
    }
}

/// The lines printed for a run of entries, with the sibling states
/// threaded through.
pub open spec fn lines_fold(levels: Seq<bool>, size_on: bool, entries: Seq<FileItem>) -> Seq<
    Seq<(Seq<char>, Style)>,
>
    decreases entries.len(),
{
    if entries.len() == 0 {
        Seq::empty()
    } else {
        lines_fold(levels, size_on, entries.drop_last()).push(
            line_view(levels_fold(levels, entries), size_on, entries.last()),
        )
    }
}

/// The views of a batch of lines.
pub open spec fn lines_views(l: Seq<Vec<Segment>>) -> Seq<Seq<(Seq<char>, Style)>> {
    l.map_values(|v: Vec<Segment>| segs_view(v@))
}

/// What one walked entry makes the filter release.
pub open spec fn session_step_out(skip: bool, buffer: Seq<FileItem>, item: FileItem) -> Seq<
    FileItem,
> {
    if skip {
        seq![item]
    } else {
        step_out(buffer, item)
    }
}


/// No later entry sits at this entry's level or above: its directory is
/// still open at the end of the walk, so later siblings may still come.
#[verifier::opaque]
pub open spec fn open_at(s: Seq<FileItem>, i: int) -> bool
    recommends
        0 <= i < s.len(),
{
    forall|m: int| i < m < s.len() ==> (#[trigger] s[m]).level > s[i].level
}

/// Siblings appear in ascending name order: whenever two entries share a
/// level and nothing shallower stands between them, the earlier one's
/// name comes first.
#[verifier::opaque]
pub open spec fn siblings_ascending(s: Seq<FileItem>) -> bool {
    forall|i: int, j: int|
        0 <= i < j < s.len() && (#[trigger] s[i]).level == (#[trigger] s[j]).level && (forall|
            m: int,
        | i < m < j ==> (#[trigger] s[m]).level > s[i].level) ==> lex_le(
            s[i].file_name@,
            s[j].file_name@,
        )
}

/// Any two entries of one directory come in ascending name order,
/// however many siblings stand between them: `siblings_ascending` chains
/// across the intermediate siblings.
#[verifier::rlimit(100)]
#[verifier::spinoff_prover]
pub proof fn lemma_siblings_general(s: Seq<FileItem>, i: int, j: int)
    requires
        siblings_ascending(s),
        0 <= i < j < s.len(),
        s[i].level == s[j].level,
        forall|m: int| i < m < j ==> (#[trigger] s[m]).level >= s[i].level,
    ensures
        lex_le(s[i].file_name@, s[j].file_name@),
    decreases j - i,
{
    if exists|m: int| i < m < j && (#[trigger] s[m]).level <= s[i].level {
        let m = choose|m: int| i < m < j && (#[trigger] s[m]).level <= s[i].level;
        assert(s[m].level == s[i].level);
        lemma_siblings_general(s, i, m);
        lemma_siblings_general(s, m, j);
        crate::order::lemma_lex_le_trans(s[i].file_name@, s[m].file_name@, s[j].file_name@);
    } else {
        assert forall|m: int| i < m < j implies (#[trigger] s[m]).level > s[i].level by {
            assert(!(s[m].level <= s[i].level));
        }
        assert(lex_le(s[i].file_name@, s[j].file_name@)) by {
            reveal(siblings_ascending);
        }
    }
}

/// Entries of one level in the stack are one directory's siblings,
/// stacked in descending name order so that they pop ascending.
#[verifier::opaque]
pub open spec fn queue_runs_sorted(q: Seq<FileItem>) -> bool {
    forall|i: int, j: int|
        0 <= i < j < q.len() && (#[trigger] q[i]).level == (#[trigger] q[j]).level ==> lex_le(
            q[j].file_name@,
            q[i].file_name@,
        )
}

/// Every stacked entry still to come names no earlier than any already
/// walked sibling whose directory is still open.
#[verifier::opaque]
pub open spec fn sibling_link(walked: Seq<FileItem>, q: Seq<FileItem>) -> bool {
    forall|i: int, j: int|
        0 <= i < walked.len() && 0 <= j < q.len() && open_at(walked, i) && (
        #[trigger] walked[i]).level == (#[trigger] q[j]).level ==> lex_le(
            walked[i].file_name@,
            q[j].file_name@,
        )
}

/// Every entry of the sequence lies at or above the depth limit: with
/// a limit of one, nothing at level two or deeper is ever seen.
#[verifier::opaque]
pub open spec fn depths_bounded(s: Seq<FileItem>, max_level: nat) -> bool {
    forall|i: int| 0 <= i < s.len() ==> (#[trigger] s[i]).level as nat <= max_level
}

proof fn lemma_depths_concat(a: Seq<FileItem>, b: Seq<FileItem>, max_level: nat)
    requires
        depths_bounded(a, max_level),
        depths_bounded(b, max_level),
    ensures
        depths_bounded(a + b, max_level),
{
    reveal(depths_bounded);
    assert forall|i: int| 0 <= i < (a + b).len() implies (#[trigger] (a + b)[i]).level as nat
        <= max_level by {
        if i < a.len() {
            assert((a + b)[i] == a[i]);
        } else {
            assert((a + b)[i] == b[i - a.len()]);
        }
    }
}

/// Popping keeps the stack and the walked entries within the depth
/// limit.
proof fn lemma_step_depth_facts(
    q0: Seq<FileItem>,
    walked0: Seq<FileItem>,
    x: FileItem,
    max_level: nat,
)
    requires
        q0.len() > 0,
        x == q0.last(),
        depths_bounded(q0, max_level),
        depths_bounded(walked0, max_level),
    ensures
        depths_bounded(q0.drop_last(), max_level),
        depths_bounded(walked0.push(x), max_level),
        x.level as nat <= max_level,
{
    reveal(depths_bounded);
    assert(q0[q0.len() - 1] == x);
    assert forall|i: int| 0 <= i < q0.drop_last().len() implies (
    #[trigger] q0.drop_last()[i]).level as nat <= max_level by {
        assert(q0.drop_last()[i] == q0[i]);
    }
    assert forall|i: int| 0 <= i < walked0.push(x).len() implies (
    #[trigger] walked0.push(x)[i]).level as nat <= max_level by {
        if i < walked0.len() {
            assert(walked0.push(x)[i] == walked0[i]);
        } else {
            assert(walked0.push(x)[i] == x);
        }
    }
}

/// What the filter releases or keeps for a bounded entry stays within
/// the depth limit.
proof fn lemma_step_depth_cache(cache0: Seq<FileItem>, x: FileItem, max_level: nat)
    requires
        depths_bounded(cache0, max_level),
        x.level as nat <= max_level,
    ensures
        depths_bounded(step_out(cache0, x), max_level),
        depths_bounded(step_cache(cache0, x), max_level),
{
    reveal(depths_bounded);
    crate::filter::lemma_drop_dead_props(cache0, x.level as int);
    let dd = drop_dead(cache0, x.level as int);
    assert forall|i: int| 0 <= i < dd.len() implies (#[trigger] dd[i]).level as nat
        <= max_level by {
        assert(dd[i] == cache0.take(dd.len() as int)[i]);
        assert(cache0.take(dd.len() as int)[i] == cache0[i]);
    }
    if x.meta is Dir {
        assert forall|i: int| 0 <= i < dd.push(x).len() implies (#[trigger] dd.push(x)[i]).level
            as nat <= max_level by {
            if i < dd.len() {
                assert(dd.push(x)[i] == dd[i]);
            } else {
                assert(dd.push(x)[i] == x);
            }
        }
    } else {
        assert forall|i: int| 0 <= i < (dd + seq![x]).len() implies (#[trigger] (dd
            + seq![x])[i]).level as nat <= max_level by {
            if i < dd.len() {
                assert((dd + seq![x])[i] == dd[i]);
            } else {
                assert((dd + seq![x])[i] == x);
            }
        }
    }
}

/// What the caller must do after one step of a session.
pub struct StepResult {
    /// The finished lines, in print order.
    pub lines: Vec<Vec<Segment>>,
    /// A directory whose listing the session now needs.
    pub read_dir: Option<String>,
    /// The traversal is complete.
    pub done: bool,
}

/// One whole traversal: walker, elision filter and orchestrator wired
/// together.  The caller repeats `step`, writes the lines it hands back,
/// reads the directory it asks for and answers with `supply_children`,
/// until `done`; unreadable directories are answered with an empty
/// listing.  Throughout, what has been printed is exactly the elision of
/// what has been walked, and the walked entries keep pre-order level
/// structure, ascending sibling names, and the configured depth limit.
pub struct TreeSession {
    walker: FileIterator,
    filter: FilteredIterator,
    tree: DirTree,
    pending: Option<FileItem>,
    walked: Ghost<Seq<FileItem>>,
}

impl TreeSession {
    /// Every entry the walker has produced, in order.
    pub closed spec fn walked_spec(&self) -> Seq<FileItem> {
        self.walked@
    }

    /// Every entry turned into a line, in print order.
    pub closed spec fn printed_spec(&self) -> Seq<FileItem> {
        self.tree.processed_spec()
    }

    /// The filter's buffered directories.
    pub closed spec fn buffer_spec(&self) -> Seq<FileItem> {
        self.filter.cache_spec()
    }

    /// The current sibling states.
    pub closed spec fn levels_spec(&self) -> Seq<bool> {
        self.tree.levels_spec()
    }

    /// Whether the filter passes everything through.
    pub closed spec fn skip_spec(&self) -> bool {
        self.filter.skip_spec()
    }

    pub closed spec fn config_spec(&self) -> ConfigView {
        self.tree.config_spec()
    }

    /// The directory whose listing the session is waiting for.
    pub closed spec fn pending_spec(&self) -> Option<FileItem> {
        self.pending
    }

    /// The walker's pending stack.
    pub closed spec fn queue_spec(&self) -> Seq<FileItem> {
        self.walker.queue_spec()
    }

    #[verifier::type_invariant]
    spec fn wf(&self) -> bool {
        &&& if self.filter.skip_spec() {
            self.tree.processed_spec() == self.walked@
        } else {
            &&& self.tree.processed_spec() == elide(Seq::empty(), self.walked@)
            &&& self.filter.cache_spec() == elide_cache(Seq::empty(), self.walked@)
        }
        &&& self.walker.show_hidden_spec() == self.tree.config_spec().show_all
        &&& self.walker.max_level_spec() == self.tree.config_spec().max_level
        &&& self.walker.include_spec() == self.tree.config_spec().include_pat
        &&& self.walker.exclude_spec() == self.tree.config_spec().exclude_pat
        &&& queue_levels_nondecreasing(self.walker.queue_spec())
        &&& queue_runs_sorted(self.walker.queue_spec())
        &&& sibling_link(self.walked@, self.walker.queue_spec())
        &&& preorder_levels(self.walked@)
        &&& siblings_ascending(self.walked@)
        &&& match self.pending {
            Option::Some(p) => {
                &&& self.walked@.len() > 0
                &&& p == self.walked@.last()
                &&& p.meta is Dir
                &&& (p.level as nat) < self.walker.max_level_spec()
                &&& forall|i: int|
                    0 <= i < self.walker.queue_spec().len() ==> (
                    #[trigger] self.walker.queue_spec()[i]).level <= p.level
            },
            Option::None => (self.walked@.len() > 0 && self.walker.queue_spec().len() > 0)
                ==> self.walker.queue_spec().last().level <= self.walked@.last().level + 1,
        }
        &&& self.walked@.len() == 0 ==> self.pending is None && self.walker.queue_spec().len()
            <= 1 && (self.walker.queue_spec().len() == 1 ==> self.walker.queue_spec()[0].level
            == 0)
        &&& self.walked@.len() > 0 ==> forall|i: int|
            0 <= i < self.walker.queue_spec().len() ==> (
            #[trigger] self.walker.queue_spec()[i]).level >= 1
        &&& depths_bounded(self.walker.queue_spec(), self.walker.max_level_spec())
        &&& depths_bounded(self.walked@, self.walker.max_level_spec())
        &&& depths_bounded(self.tree.processed_spec(), self.walker.max_level_spec())
        &&& !self.filter.skip_spec() ==> depths_bounded(
            self.filter.cache_spec(),
            self.walker.max_level_spec(),
        )
    }

    /// A fresh session over `config`, rooted at `root` (whose level and
    /// sibling flag are the session's to set).
    pub fn start(config: Config, root: FileItem) -> (s: TreeSession)
        ensures
            s.walked_spec() == Seq::<FileItem>::empty(),
            s.printed_spec() == Seq::<FileItem>::empty(),
            s.skip_spec() == (config@.include_pat is None),
            s.config_spec() == config@,
            s.pending_spec() is None,
            s.queue_spec() =~= seq![
                (FileItem {
                    file_name: root.file_name,
                    path: root.path,
                    meta: root.meta,
                    level: 0usize,
                    is_last: true,
                }),
            ],
    {
        let FileItem { file_name, path, meta, level: _, is_last: _ } = root;
        let root0 = FileItem::new(file_name, path, meta, 0, true);
        let tree = DirTree::new(config);
        let walker = tree.make_walker(root0);
        let filter = tree.make_filter();
        proof {
            assert(elide(Seq::empty(), Seq::<FileItem>::empty()) =~= Seq::<FileItem>::empty());
            assert(elide_cache(Seq::empty(), Seq::<FileItem>::empty())
                =~= Seq::<FileItem>::empty());
            reveal(queue_runs_sorted);
            reveal(sibling_link);
            reveal(siblings_ascending);
            assert(queue_runs_sorted(walker.queue_spec()));
            assert(sibling_link(Seq::empty(), walker.queue_spec()));
            assert(siblings_ascending(Seq::<FileItem>::empty()));
            reveal(depths_bounded);
            assert forall|i: int| 0 <= i < walker.queue_spec().len() implies (
            #[trigger] walker.queue_spec()[i]).level as nat <= walker.max_level_spec() by {
                assert(walker.queue_spec()[i] == root0);
            }
            assert(depths_bounded(Seq::<FileItem>::empty(), walker.max_level_spec()));
        }
        TreeSession { walker, filter, tree, pending: None, walked: Ghost(Seq::empty()) }
    }

    /// A blank session, swapped into place while the caller's session is
    /// taken apart and rebuilt.
    fn idle() -> (s: TreeSession)
    {
        TreeSession::start(
            Config {
                colorful: false,
                show_all: false,
                size: false,
                max_level: 0,
                include_glob: None,
                exclude_glob: None,
            },
            FileItem::new(String::new(), String::new(), FileMeta::Dir, 0, true),
        )
    }

    /// Advances the traversal by one entry.  The printed entries stay
    /// exactly the elision of the walked ones (or all of them with the
    /// filter off), and the walked entries keep pre-order level
    /// structure and never exceed the configured depth limit.
    #[verifier::rlimit(100)]
    pub fn step(&mut self) -> (r: StepResult)
        ensures
            final(self).config_spec() == old(self).config_spec(),
            final(self).skip_spec() == old(self).skip_spec(),
            preorder_levels(final(self).walked_spec()),
            siblings_ascending(final(self).walked_spec()),
            depths_bounded(final(self).walked_spec(), final(self).config_spec().max_level),
            depths_bounded(final(self).printed_spec(), final(self).config_spec().max_level),
            final(self).skip_spec() ==> final(self).printed_spec() == final(self).walked_spec(),
            !final(self).skip_spec() ==> final(self).printed_spec() == elide(
                Seq::empty(),
                final(self).walked_spec(),
            ),
            old(self).pending_spec() matches Some(p) ==> *final(self) == *old(self) && !r.done
                && r.read_dir == Some(p.path) && r.lines@.len() == 0,
            old(self).pending_spec() is None && old(self).queue_spec().len() == 0 ==> ({
                &&& final(self).walked_spec() == old(self).walked_spec()
                &&& final(self).printed_spec() == old(self).printed_spec()
                &&& final(self).levels_spec() == old(self).levels_spec()
                &&& final(self).buffer_spec() == old(self).buffer_spec()
                &&& final(self).pending_spec() is None
                &&& final(self).queue_spec() == old(self).queue_spec()
                &&& r.done
                &&& r.read_dir is None
                &&& r.lines@.len() == 0
            }),
            old(self).pending_spec() is None && old(self).queue_spec().len() > 0 ==> ({
                let x = old(self).queue_spec().last();
                let outs = session_step_out(old(self).skip_spec(), old(self).buffer_spec(), x);
                &&& !r.done
                &&& final(self).walked_spec() == old(self).walked_spec().push(x)
                &&& final(self).printed_spec() == old(self).printed_spec() + outs
                &&& final(self).levels_spec() == levels_fold(old(self).levels_spec(), outs)
                &&& lines_views(r.lines@) == lines_fold(
                    old(self).levels_spec(),
                    old(self).config_spec().size,
                    outs,
                )
                &&& (x.meta is Dir && (x.level as nat) < old(self).config_spec().max_level)
                    ==> r.read_dir == Some(x.path) && final(self).pending_spec() == Some(x)
                &&& !(x.meta is Dir && (x.level as nat) < old(self).config_spec().max_level)
                    ==> r.read_dir is None && final(self).pending_spec() is None
            }),
    {
        proof {
            use_type_invariant(&*self);
        }
        let mut tmp = TreeSession::idle();
        std::mem::swap(self, &mut tmp);
        let TreeSession { mut walker, mut filter, mut tree, pending, walked } = tmp;
        let ghost walked0 = walked@;
        match pending {
            Some(p) => {
                let path = p.path.clone();
                *self = TreeSession { walker, filter, tree, pending: Some(p), walked };
                StepResult { lines: Vec::new(), read_dir: Some(path), done: false }
            },
            None => {
                let ghost q0 = walker.queue_spec();
                match walker.pop_next() {
                    None => {
                        *self = TreeSession { walker, filter, tree, pending: None, walked };
                        StepResult { lines: Vec::new(), read_dir: None, done: true }
                    },
                    Some(item) => {
                        let expand = walker.should_expand(&item);
                        let new_pending = if expand {
                            Some(item.duplicate())
                        } else {
                            None
                        };
                        let read_dir = if expand {
                            Some(item.path.clone())
                        } else {
                            None
                        };
                        let ghost itemg = item;
                        let ghost walked1 = walked0.push(itemg);
                        proof {
                            lemma_elide_snoc_for_session(walked0, itemg);
                        }
                        let outs = filter.process(item);
                        let ghost outs0 = outs@;
                        let ghost printed0 = tree.processed_spec();
                        let lines = tree.process_batch(outs);
                        proof {
                            let q1 = walker.queue_spec();
                            assert(q1 =~= q0.drop_last());
                            assert(itemg == q0.last());
                            lemma_step_queue_facts(q0, walked0, itemg);
                            let maxl = walker.max_level_spec();
                            lemma_step_depth_facts(q0, walked0, itemg, maxl);
                            assert(walked1.last() == itemg);
                            if q1.len() > 0 {
                                assert(q1.last() == q1[q1.len() - 1]);
                                assert(q1[q1.len() - 1].level <= itemg.level);
                            }
                            if filter.skip_spec() {
                                assert(tree.processed_spec() =~= walked1);
                                assert(depths_bounded(tree.processed_spec(), maxl));
                            } else {
                                let cache0 = old(self).buffer_spec();
                                assert(outs0 == step_out(elide_cache(Seq::empty(), walked0), itemg));
                                assert(tree.processed_spec() == elide(Seq::empty(), walked1));
                                assert(filter.cache_spec() == elide_cache(Seq::empty(), walked1));
                                lemma_step_depth_cache(cache0, itemg, maxl);
                                lemma_depths_concat(printed0, outs0, maxl);
                                assert(tree.processed_spec() == printed0 + outs0);
                                assert(filter.cache_spec() == step_cache(cache0, itemg));
                            }
                        }
                        *self = TreeSession {
                            walker,
                            filter,
                            tree,
                            pending: new_pending,
                            walked: Ghost(walked1),
                        };
                        StepResult { lines, read_dir, done: false }
                    },
                }
            },
        }
    }

    /// Answers the session's request for a directory listing; with no
    /// request open, the listing is ignored.
    #[verifier::rlimit(100)]
    pub fn supply_children(&mut self, children: Vec<FileItem>) -> (had: bool)
        ensures
            final(self).config_spec() == old(self).config_spec(),
            final(self).skip_spec() == old(self).skip_spec(),
            final(self).walked_spec() == old(self).walked_spec(),
            final(self).printed_spec() == old(self).printed_spec(),
            final(self).levels_spec() == old(self).levels_spec(),
            final(self).buffer_spec() == old(self).buffer_spec(),
            final(self).pending_spec() is None,
            had == (old(self).pending_spec() is Some),
            old(self).pending_spec() is None ==> final(self).queue_spec() == old(
                self,
            ).queue_spec(),
            old(self).pending_spec() matches Some(p) ==> ({
                let b = final(self).queue_spec().skip(old(self).queue_spec().len() as int);
                let inc = included_children(
                    old(self).config_spec().show_all,
                    old(self).config_spec().include_pat,
                    old(self).config_spec().exclude_pat,
                    children@,
                );
                &&& final(self).queue_spec().take(old(self).queue_spec().len() as int) == old(
                    self,
                ).queue_spec()
                &&& keys_of(b).to_multiset() == keys_of(inc).to_multiset()
                &&& sorted_desc(b)
                &&& forall|i: int|
                    0 <= i < b.len() ==> (#[trigger] b[i]).level as nat == p.level as nat + 1
                &&& forall|i: int| 0 <= i < b.len() ==> (#[trigger] b[i]).is_last == (i == 0)
            }),
    {
        proof {
            use_type_invariant(&*self);
        }
        let mut tmp = TreeSession::idle();
        std::mem::swap(self, &mut tmp);
        let TreeSession { mut walker, filter, tree, pending, walked } = tmp;
        match pending {
            None => {
                *self = TreeSession { walker, filter, tree, pending: None, walked };
                false
            },
            Some(p) => {
                let ghost q0 = walker.queue_spec();
                walker.push_dir(&p, children);
                proof {
                    let q1 = walker.queue_spec();
                    let n0 = q0.len() as int;
                    assert forall|i: int| n0 <= i < q1.len() implies (#[trigger] q1[i]).level
                        as nat == p.level as nat + 1 by {
                        assert(q1.skip(n0)[i - n0] == q1[i]);
                    }
                    lemma_supply_queue_facts(q0, walked@, p, q1);
                    reveal(depths_bounded);
                    assert forall|i: int| 0 <= i < q1.len() implies (#[trigger] q1[i]).level
                        as nat <= walker.max_level_spec() by {
                        if i < n0 {
                            assert(q1.take(n0)[i] == q1[i]);
                            assert(q0[i].level as nat <= walker.max_level_spec());
                        } else {
                            assert(q1[i].level as nat == p.level as nat + 1);
                        }
                    }
                    assert(depths_bounded(q1, walker.max_level_spec()));
                }
                *self = TreeSession { walker, filter, tree, pending: None, walked };
                true
            },
        }
    }

    /// The summary over everything printed so far.
    pub fn finish(&self) -> (s: DirSummary)
        ensures
            s.num_files as nat == cap_count(count_files(self.printed_spec())),
            s.num_folders as nat == if count_dirs(self.printed_spec()) == 0 {
                0nat
            } else {
                (cap_count(count_dirs(self.printed_spec())) - 1) as nat
            },
    {
        self.tree.finish()
    }
}

/// The step a session takes when one more entry is walked, stated over
/// the whole-run model.
proof fn lemma_elide_snoc_for_session(walked: Seq<FileItem>, x: FileItem)
    ensures
        elide(Seq::empty(), walked.push(x)) == elide(Seq::empty(), walked) + step_out(
            elide_cache(Seq::empty(), walked),
            x,
        ),
        elide_cache(Seq::empty(), walked.push(x)) == crate::filter::step_cache(
            elide_cache(Seq::empty(), walked),
            x,
        ),
{
    crate::filter::lemma_elide_snoc(Seq::empty(), walked, x);
}

/// Popping the stack's top keeps every ordering invariant: the remaining
/// stack stays level-sorted and name-sorted within runs, and the popped
/// entry joins the walked entries in pre-order with ascending siblings.
proof fn lemma_step_queue_facts(q0: Seq<FileItem>, walked0: Seq<FileItem>, x: FileItem)
    requires
        q0.len() > 0,
        x == q0.last(),
        queue_levels_nondecreasing(q0),
        queue_runs_sorted(q0),
        sibling_link(walked0, q0),
        preorder_levels(walked0),
        siblings_ascending(walked0),
        walked0.len() == 0 ==> q0.len() <= 1 && q0[0].level == 0,
        walked0.len() > 0 ==> q0.last().level <= walked0.last().level + 1,
        walked0.len() > 0 ==> forall|i: int|
            0 <= i < q0.len() ==> (#[trigger] q0[i]).level >= 1,
    ensures
        queue_levels_nondecreasing(q0.drop_last()),
        queue_runs_sorted(q0.drop_last()),
        sibling_link(walked0.push(x), q0.drop_last()),
        preorder_levels(walked0.push(x)),
        siblings_ascending(walked0.push(x)),
        forall|i: int|
            0 <= i < q0.drop_last().len() ==> (#[trigger] q0.drop_last()[i]).level <= x.level,
        forall|i: int|
            0 <= i < q0.drop_last().len() ==> (#[trigger] q0.drop_last()[i]).level >= 1,
{
    let q1 = q0.drop_last();
    assert forall|i: int| 0 <= i < q1.len() implies #[trigger] q1[i] == q0[i] by {}
    assert forall|i: int| 0 <= i < q1.len() implies (#[trigger] q1[i]).level <= x.level by {
        assert(q0[i].level <= q0[q0.len() - 1].level);
    }
    assert forall|i: int| 0 <= i < q1.len() implies (#[trigger] q1[i]).level >= 1 by {
        assert(walked0.len() > 0);
        assert(q0[i].level >= 1);
    }
    lemma_pop_preorder(q0, walked0, x);
    lemma_pop_siblings(q0, walked0, x);
    lemma_pop_link(q0, walked0, x);
    reveal(queue_runs_sorted);
    assert(queue_runs_sorted(q1)) by {
        assert forall|i: int, j: int|
            0 <= i < j < q1.len() && (#[trigger] q1[i]).level == (#[trigger] q1[j]).level
            implies lex_le(q1[j].file_name@, q1[i].file_name@) by {
            assert(q1[i] == q0[i] && q1[j] == q0[j]);
        }
    }
}

proof fn lemma_pop_preorder(q0: Seq<FileItem>, walked0: Seq<FileItem>, x: FileItem)
    requires
        q0.len() > 0,
        x == q0.last(),
        preorder_levels(walked0),
        walked0.len() == 0 ==> q0.len() <= 1 && q0[0].level == 0,
        walked0.len() > 0 ==> q0.last().level <= walked0.last().level + 1,
        walked0.len() > 0 ==> forall|i: int|
            0 <= i < q0.len() ==> (#[trigger] q0[i]).level >= 1,
    ensures
        preorder_levels(walked0.push(x)),
{
    let walked1 = walked0.push(x);
    assert forall|i: int| 1 <= i < walked1.len() implies 1 <= (#[trigger] walked1[i]).level
        <= walked1[i - 1].level + 1 by {
        if i < walked0.len() {
            assert(walked1[i] == walked0[i]);
            assert(walked1[i - 1] == walked0[i - 1]);
        } else {
            assert(walked1[i] == x);
            assert(walked1[i - 1] == walked0.last());
            assert(x.level >= 1) by {
                assert(q0[q0.len() - 1].level >= 1);
            }
            assert(x.level <= walked0.last().level + 1);
        }
    }
    if walked1.len() > 0 {
        if walked0.len() == 0 {
            assert(walked1[0] == x);
            assert(x == q0[0]);
        } else {
            assert(walked1[0] == walked0[0]);
        }
    }
}

proof fn lemma_pop_siblings(q0: Seq<FileItem>, walked0: Seq<FileItem>, x: FileItem)
    requires
        q0.len() > 0,
        x == q0.last(),
        sibling_link(walked0, q0),
        siblings_ascending(walked0),
    ensures
        siblings_ascending(walked0.push(x)),
{
    reveal(open_at);
    reveal(siblings_ascending);
    reveal(sibling_link);
    let walked1 = walked0.push(x);
    assert forall|i: int, j: int|
        0 <= i < j < walked1.len() && (#[trigger] walked1[i]).level == (
        #[trigger] walked1[j]).level && (forall|m: int|
            i < m < j ==> (#[trigger] walked1[m]).level > walked1[i].level) implies lex_le(
        walked1[i].file_name@,
        walked1[j].file_name@,
    ) by {
        if j < walked0.len() {
            assert(walked1[i] == walked0[i]);
            assert(walked1[j] == walked0[j]);
            assert forall|m: int| i < m < j implies (#[trigger] walked0[m]).level
                > walked0[i].level by {
                assert(walked1[m] == walked0[m]);
                assert(walked1[m].level > walked1[i].level);
            }
        } else {
            assert(walked1[j] == x);
            assert(walked1[i] == walked0[i]);
            assert(open_at(walked0, i)) by {
                assert forall|m: int| i < m < walked0.len() implies (
                #[trigger] walked0[m]).level > walked0[i].level by {
                    assert(walked1[m] == walked0[m]);
                    assert(walked1[m].level > walked1[i].level);
                }
            }
            assert(q0[q0.len() - 1] == x);
            assert(lex_le(walked0[i].file_name@, q0[q0.len() - 1].file_name@));
        }
    }
}

proof fn lemma_pop_link(q0: Seq<FileItem>, walked0: Seq<FileItem>, x: FileItem)
    requires
        q0.len() > 0,
        x == q0.last(),
        queue_runs_sorted(q0),
        sibling_link(walked0, q0),
    ensures
        sibling_link(walked0.push(x), q0.drop_last()),
{
    reveal(open_at);
    reveal(queue_runs_sorted);
    reveal(sibling_link);
    let q1 = q0.drop_last();
    let walked1 = walked0.push(x);
    assert forall|i: int, j: int|
        0 <= i < walked1.len() && 0 <= j < q1.len() && open_at(walked1, i) && (
        #[trigger] walked1[i]).level == (#[trigger] q1[j]).level implies lex_le(
        walked1[i].file_name@,
        q1[j].file_name@,
    ) by {
        assert(q1[j] == q0[j]);
        if i < walked0.len() {
            assert(walked1[i] == walked0[i]);
            assert(open_at(walked0, i)) by {
                assert forall|m: int| i < m < walked0.len() implies (
                #[trigger] walked0[m]).level > walked0[i].level by {
                    assert(walked1[m] == walked0[m]);
                    assert(walked1[m].level > walked1[i].level);
                }
            }
        } else {
            assert(walked1[i] == x);
            assert(q0[q0.len() - 1] == x);
            assert(lex_le(q0[q0.len() - 1].file_name@, q0[j].file_name@));
        }
    }
}

/// Stacking a sorted block of children one level below the expanded
/// directory keeps every ordering invariant, and no walked entry at the
/// children's level is still open.
proof fn lemma_supply_queue_facts(
    q0: Seq<FileItem>,
    walked: Seq<FileItem>,
    p: FileItem,
    q1: Seq<FileItem>,
)
    requires
        queue_levels_nondecreasing(q0),
        queue_runs_sorted(q0),
        sibling_link(walked, q0),
        walked.len() > 0,
        p == walked.last(),
        forall|i: int| 0 <= i < q0.len() ==> (#[trigger] q0[i]).level <= p.level,
        forall|i: int| 0 <= i < q0.len() ==> (#[trigger] q0[i]).level >= 1,
        q1.len() >= q0.len(),
        q1.take(q0.len() as int) == q0,
        forall|i: int|
            q0.len() <= i < q1.len() ==> (#[trigger] q1[i]).level as nat == p.level as nat + 1,
        sorted_desc(q1.skip(q0.len() as int)),
    ensures
        queue_levels_nondecreasing(q1),
        queue_runs_sorted(q1),
        sibling_link(walked, q1),
        q1.len() > 0 ==> q1.last().level <= walked.last().level + 1,
        forall|i: int| 0 <= i < q1.len() ==> (#[trigger] q1[i]).level >= 1,
{
    reveal(open_at);
    reveal(queue_runs_sorted);
    reveal(sibling_link);
    let n0 = q0.len() as int;
    let b = q1.skip(n0);
    assert forall|i: int| 0 <= i < n0 implies #[trigger] q1[i] == q0[i] by {
        assert(q1.take(n0)[i] == q1[i]);
    }
    assert forall|i: int, j: int| 0 <= i < j < q1.len() implies (#[trigger] q1[i]).level <= (
    #[trigger] q1[j]).level by {
        if j < n0 {
        } else if i < n0 {
            assert(q1[i].level <= p.level);
        }
    }
    if q1.len() > 0 {
        assert(q1.last() == q1[q1.len() - 1]);
        if q1.len() > n0 {
            assert(q1[q1.len() - 1].level as nat == p.level as nat + 1);
        } else {
            assert(q1[q1.len() - 1].level <= p.level);
        }
    }
    assert forall|i: int| 0 <= i < q1.len() implies (#[trigger] q1[i]).level >= 1 by {
        if i < n0 {
            assert(q0[i].level >= 1);
        }
    }
    assert(queue_runs_sorted(q1)) by {
        assert forall|i: int, j: int|
            0 <= i < j < q1.len() && (#[trigger] q1[i]).level == (#[trigger] q1[j]).level
            implies lex_le(q1[j].file_name@, q1[i].file_name@) by {
            if j < n0 {
            } else if i >= n0 {
                assert(b[i - n0] == q1[i]);
                assert(b[j - n0] == q1[j]);
                assert(lex_le(b[j - n0].file_name@, b[i - n0].file_name@));
            } else {
                assert(q1[i].level <= p.level);
                assert(q1[j].level as nat == p.level as nat + 1);
            }
        }
    }
    assert(sibling_link(walked, q1)) by {
        assert forall|i: int, j: int|
            0 <= i < walked.len() && 0 <= j < q1.len() && open_at(walked, i) && (
            #[trigger] walked[i]).level == (#[trigger] q1[j]).level implies lex_le(
            walked[i].file_name@,
            q1[j].file_name@,
        ) by {
            if j < n0 {
                assert(q1[j] == q0[j]);
            } else {
                // nothing walked at the children's level can still be
                // open: the expanded directory walked last, one level
                // above its children
                assert(q1[j].level as nat == p.level as nat + 1);
                assert(walked[walked.len() - 1] == p);
                if i < walked.len() - 1 {
                    assert(walked[walked.len() - 1].level > walked[i].level);
                }
                assert(false);
            }
        }
    }
}


} // verus!
