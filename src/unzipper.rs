//! The extractor's configuration, the decision taken for each entry, and
//! the counts of what was created.
use vstd::prelude::*;

use crate::path::{components, lemma_strip_count, normalize, normalized, strip, stripped};

verus! {

/// Relies on `String::push`: appends one character.
#[verifier::external_body]
fn push_char(s: &mut String, c: char)
    ensures
        final(s)@ == old(s)@.push(c),
{
    s.push(c);
}

/// The characters of `s`, in order.
pub fn chars_of(s: &str) -> (r: Vec<char>)
    ensures
        r@ == s@,
{
    let mut r: Vec<char> = Vec::new();
    for c in it: s.chars()
        invariant
            r@ == it.seq().subrange(0, it.index() as int),
    {
        r.push(c);
    }
    r
}

/// The text of `v`, as a `String`.
pub fn string_of(v: &Vec<char>) -> (r: String)
    ensures
        r@ == v@,
{
    let mut r = String::new();
    let mut i: usize = 0;
    while i < v.len()
        invariant
            i <= v.len(),
            r@ == v@.subrange(0, i as int),
        decreases v.len() - i,
    {
        push_char(&mut r, v[i]);
        assert(v@.subrange(0, i + 1) =~= v@.subrange(0, i as int).push(v[i as int]));
        i = i + 1;
    }
    assert(v@.subrange(0, v.len() as int) =~= v@);
    r
}

/// What becomes of an entry named `name`, a directory where `is_dir`, when
/// `strip` leading components are removed: `None` where it is left out,
/// else whether it is a directory and its path relative to the output
/// directory. Back-slashes in the name are read as separators first.
/// Names holding `..` or starting with `/` are kept as they are, so such an
/// entry can land outside the output directory: callers that extract
/// archives they do not trust inspect the path first.
pub open spec fn planned(name: Seq<char>, is_dir: bool, strip: nat) -> Option<(bool, Seq<char>)> {
    match stripped(normalized(name), strip) {
        Some(p) => Some((is_dir, p)),
        None => None,
    }
}

/// The number of entries of `done` that are directories (`kind`) or files
/// (`!kind`).
pub open spec fn count_kind(done: Seq<(bool, Seq<char>)>, kind: bool) -> nat
    decreases done.len(),
{
    if done.len() == 0 {
        0
    } else {
        count_kind(done.drop_last(), kind) + if done.last().0 == kind { 1nat } else { 0nat }
    }
}

/// Counts of what an extraction created.
#[derive(Debug, Clone, Copy, PartialEq, Eq, Structural)]
pub struct UnzipperStats {
    pub dirs: u16,
    pub files: u16,
}

/// What is to be done with one entry; a path is relative to the output
/// directory.
#[derive(Debug, PartialEq, Eq)]
pub enum EntryAction {
    /// The entry has fewer components than are stripped.
    Skip,
    /// Create this directory and its missing ancestors.
    CreateDir(String),
    /// Create the parent directories, then this file, which must not exist.
    WriteFile(String),
}

impl View for EntryAction {
    type V = Option<(bool, Seq<char>)>;

    open spec fn view(&self) -> Option<(bool, Seq<char>)> {
        match self {
            EntryAction::Skip => None,
            EntryAction::CreateDir(p) => Some((true, p@)),
            EntryAction::WriteFile(p) => Some((false, p@)),
        }
    }
}

/// One extraction under way: the strip count, and the counts of the
/// entries created so far, which are those recorded.
pub struct Extraction {
    strip: u8,
    stats: UnzipperStats,
    done: Ghost<Seq<(bool, Seq<char>)>>,
}

impl Extraction {
    /// The number of leading components stripped from each entry.
    pub closed spec fn strip_count(&self) -> u8 {
        self.strip
    }

    /// The entries created so far, in order: whether each is a directory,
    /// and its path.
    pub closed spec fn created(&self) -> Seq<(bool, Seq<char>)> {
        self.done@
    }

    /// The counts agree with the entries created.
    pub closed spec fn wf(&self) -> bool {
        &&& self.stats.dirs == count_kind(self.done@, true)
        &&& self.stats.files == count_kind(self.done@, false)
    }

    /// A run that strips `strip` leading components and has created nothing.
    pub fn new(strip: u8) -> (r: Extraction)
        ensures
            r.wf(),
            r.strip_count() == strip,
            r.created() == Seq::<(bool, Seq<char>)>::empty(),
    {
        Extraction { strip, stats: UnzipperStats { dirs: 0, files: 0 }, done: Ghost(Seq::empty()) }
    }

    /// Decides what becomes of the entry named `name`.
    pub fn plan(&self, name: &str, is_dir: bool) -> (r: EntryAction)
        ensures
            r@ == planned(name@, is_dir, self.strip_count() as nat),
    {
        let chars = chars_of(name);
        let norm = normalize(&chars);
        match strip(norm, self.strip) {
            None => EntryAction::Skip,
            Some(p) => {
                let text = string_of(&p);
                if is_dir {
                    EntryAction::CreateDir(text)
                } else {
                    EntryAction::WriteFile(text)
                }
            },
        }
    }

    /// Counts `action` once it has been carried out. Returns `false`, and
    /// changes nothing, where its counter is already at its largest value.
    pub fn record(&mut self, action: &EntryAction) -> (ok: bool)
        requires
            old(self).wf(),
        ensures
            final(self).wf(),
            final(self).strip_count() == old(self).strip_count(),
            ok <==> match action {
                EntryAction::Skip => true,
                EntryAction::CreateDir(_) => count_kind(old(self).created(), true) < u16::MAX,
                EntryAction::WriteFile(_) => count_kind(old(self).created(), false) < u16::MAX,
            },
            final(self).created() == if ok && action@ is Some {
                old(self).created().push(action@->Some_0)
            } else {
                old(self).created()
            },
    {
        let ghost prev = self.done@;
        match action {
            EntryAction::Skip => true,
            EntryAction::CreateDir(p) => {
                if self.stats.dirs == u16::MAX {
                    false
                } else {
                    self.stats.dirs = self.stats.dirs + 1;
                    self.done = Ghost(prev.push((true, p@)));
                    assert(self.done@.drop_last() =~= prev);
                    true
                }
            },
            EntryAction::WriteFile(p) => {
                if self.stats.files == u16::MAX {
                    false
                } else {
                    self.stats.files = self.stats.files + 1;
                    self.done = Ghost(prev.push((false, p@)));
                    assert(self.done@.drop_last() =~= prev);
                    true
                }
            },
        }
    }

    /// The counts of the run: the numbers of directories and of files
    /// among the entries created, entries left out not counted.
    pub fn finish(self) -> (r: UnzipperStats)
        requires
            self.wf(),
        ensures
            r.dirs == count_kind(self.created(), true),
            r.files == count_kind(self.created(), false),
    {
        self.stats
    }
}

/// An extractor of the archive read from `source` into the directory
/// `outdir`, which strips `strip_components` leading components from each
/// entry's path.
pub struct Unzipper<R, O> {
    source: R,
    outdir: O,
    strip_components: u8,
}

impl<R, O> Unzipper<R, O> {
    /// The archive source.
    pub closed spec fn source(&self) -> R {
        self.source
    }

    /// The output directory.
    pub closed spec fn outdir(&self) -> O {
        self.outdir
    }

    /// The number of leading components stripped from each entry.
    pub closed spec fn strip_count(&self) -> u8 {
        self.strip_components
    }

    /// An extractor of `reader` into `output` that strips nothing.
    pub fn new(reader: R, output: O) -> (r: Unzipper<R, O>)
        ensures
            r.source() == reader,
            r.outdir() == output,
            r.strip_count() == 0,
    {
        Unzipper { source: reader, outdir: output, strip_components: 0 }
    }

    /// The same extractor, stripping `num` leading components.
    pub fn strip_components(self, num: u8) -> (r: Unzipper<R, O>)
        ensures
            r.source() == self.source(),
            r.outdir() == self.outdir(),
            r.strip_count() == num,
    {
        Unzipper { strip_components: num, ..self }
    }

    /// The source, the output directory, and a run that has created nothing
    /// yet with this extractor's strip count.
    pub fn into_parts(self) -> (r: (R, O, Extraction))
        ensures
            r.0 == self.source(),
            r.1 == self.outdir(),
            r.2.wf(),
            r.2.strip_count() == self.strip_count(),
            r.2.created() == Seq::<(bool, Seq<char>)>::empty(),
    {
        let run = Extraction::new(self.strip_components);
        (self.source, self.outdir, run)
    }
}

/// A name that separates its parts by back-slashes alone lands where the
/// same name written with forward slashes does.
pub proof fn lemma_backslash_names(back: Seq<char>, forward: Seq<char>, is_dir: bool, strip: nat)
    requires
        !back.contains('/'),
        forward.len() == back.len(),
        forall|i: int|
            0 <= i < back.len() ==> #[trigger] forward[i] == if back[i] == '\\' {
                '/'
            } else {
                back[i]
            },
    ensures
        planned(back, is_dir, strip) == planned(forward, is_dir, strip),
{
    assert(normalized(back) =~= forward);
    assert(normalized(forward) =~= forward);
}

/// An entry whose name has `k` components is left out when more than `k`
/// are stripped. Otherwise it keeps its kind, and where `n > 0` its path
/// reads as `.` followed by the last `k - n` components of its name, in
/// order.
pub proof fn lemma_entry_strip(name: Seq<char>, is_dir: bool, n: nat)
    ensures
        n > components(normalized(name)).len() ==> planned(name, is_dir, n) is None,
        n <= components(normalized(name)).len() ==> planned(name, is_dir, n) is Some
            && planned(name, is_dir, n)->Some_0.0 == is_dir,
        0 < n <= components(normalized(name)).len() ==> components(
            planned(name, is_dir, n)->Some_0.1,
        ) == seq![seq!['.']] + components(normalized(name)).subrange(
            n as int,
            components(normalized(name)).len() as int,
        ),
{
    lemma_strip_count(normalized(name), n);
}

/// Every entry created is counted once, as a directory or as a file.
pub proof fn lemma_counts_cover(done: Seq<(bool, Seq<char>)>)
    ensures
        count_kind(done, true) + count_kind(done, false) == done.len(),
    decreases done.len(),
{
    if done.len() > 0 {
        lemma_counts_cover(done.drop_last());
    }
}

} // verus!
