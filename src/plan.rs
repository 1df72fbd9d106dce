use vstd::prelude::*;
use crate::error::ResizeError;
use crate::text::{chars_of, spells, spells_range};

verus! {

/// The index of the last `.` in `s`, or -1 where there is none.
pub open spec fn last_dot(s: Seq<char>) -> int
    decreases s.len(),
{
    if s.len() == 0 {
        -1
    } else if s.last() == '.' {
        s.len() - 1
    } else {
        last_dot(s.drop_last())
    }
}

/// The extension of a file name: what follows its last `.`, where that `.`
/// is not the name's first character and the name is not `..`.
pub open spec fn extension_of(name: Seq<char>) -> Option<Seq<char>> {
    let i = last_dot(name);
    if i > 0 && name != seq!['.', '.'] {
        Some(name.skip(i + 1))
    } else {
        None
    }
}

/// The extensions recognised as images: `jpg`, `jpeg`, `png` and `bmp`, in
/// any ASCII case.
pub open spec fn is_image_extension(e: Seq<char>) -> bool {
    spells(e, seq!['j', 'p', 'g']) || spells(e, seq!['j', 'p', 'e', 'g'])
        || spells(e, seq!['p', 'n', 'g']) || spells(e, seq!['b', 'm', 'p'])
}

/// A file name whose extension is an image extension.
pub open spec fn is_image_name(name: Seq<char>) -> bool {
    match extension_of(name) {
        Some(e) => is_image_extension(e),
        None => false,
    }
}

/// Is `file_name` the name of an image file, by its extension?
pub fn has_image_extension(file_name: &str) -> (r: bool)
    ensures
        r == is_image_name(file_name@),
{
    let v = chars_of(file_name);
    let ghost s = v@;
    // find the last '.'
    let mut j: usize = v.len();
    assert(s.take(s.len() as int) =~= s);
    while j > 0 && v[j - 1] != '.'
        invariant
            j <= v@.len(),
            s == v@,
            last_dot(s) == last_dot(s.take(j as int)),
        decreases j,
    {
        assert(s.take(j as int).drop_last() =~= s.take(j - 1));
        j = j - 1;
    }
    if j <= 1 {
        // no '.', or the only candidate is the first character
        assert(last_dot(s) == j - 1) by {
            if j == 1 {
                assert(s.take(1).last() == '.');
            }
        }
        return false;
    }
    assert(s.take(j as int).last() == '.');
    assert(last_dot(s) == j - 1);
    if v.len() == 2 && v[0] == '.' && v[1] == '.' {
        assert(s =~= seq!['.', '.']);
        return false;
    }
    assert(s != seq!['.', '.']) by {
        if s == seq!['.', '.'] {
            assert(s.len() == 2 && s[0] == '.' && s[1] == '.');
        }
    }
    let n = v.len();
    assert(s.subrange(j as int, n as int) =~= s.skip(j as int));
    let jpg: Vec<char> = vec!['j', 'p', 'g'];
    let jpeg: Vec<char> = vec!['j', 'p', 'e', 'g'];
    let png: Vec<char> = vec!['p', 'n', 'g'];
    let bmp: Vec<char> = vec!['b', 'm', 'p'];
    assert(jpg@ == seq!['j', 'p', 'g']);
    assert(jpeg@ == seq!['j', 'p', 'e', 'g']);
    assert(png@ == seq!['p', 'n', 'g']);
    assert(bmp@ == seq!['b', 'm', 'p']);
    spells_range(&v, j, n, &jpg) || spells_range(&v, j, n, &jpeg) || spells_range(&v, j, n, &png)
        || spells_range(&v, j, n, &bmp)
}

/// One entry met while walking an input directory: its path relative to
/// that directory, one component per element, and whether it is a regular
/// file.
#[derive(Debug, Clone)]
pub struct WalkEntry {
    pub rel: Vec<String>,
    pub is_file: bool,
}

impl WalkEntry {
    /// The relative path and the file flag.
    pub open spec fn view(&self) -> (Seq<String>, bool) {
        (self.rel@, self.is_file)
    }
}

/// One image to resize: the index of the walk entry it comes from, where it
/// is read, where it is written, and the directory that must exist before it
/// is written. Paths are sequences of components.
#[derive(Debug, Clone)]
pub struct ResizeJob {
    pub entry: usize,
    pub source: Vec<String>,
    pub destination: Vec<String>,
    pub destination_dir: Vec<String>,
}

impl ResizeJob {
    /// Entry index, source, destination and destination directory.
    pub open spec fn view(&self) -> (int, Seq<String>, Seq<String>, Seq<String>) {
        (self.entry as int, self.source@, self.destination@, self.destination_dir@)
    }
}

/// What an input path turned out to be.
#[derive(Debug, Clone, Copy, PartialEq, Eq, Structural)]
pub enum InputKind {
    /// A regular file: it is resized on its own.
    File,
    /// A directory: its images are planned and resized one by one.
    Directory,
}

/// An entry is planned where it is a regular file with an image extension,
/// and, unless the walk is recursive, a direct child of the input directory.
pub open spec fn keeps_entry(rel: Seq<String>, is_file: bool, recursive: bool) -> bool {
    &&& is_file
    &&& rel.len() >= 1
    &&& (recursive || rel.len() == 1)
    &&& is_image_name(rel.last()@)
}

/// The job for entry `index`, at `rel`: the output mirrors the input's layout.
pub open spec fn job_for(
    index: int,
    input_dir: Seq<String>,
    output_dir: Seq<String>,
    rel: Seq<String>,
) -> (int, Seq<String>, Seq<String>, Seq<String>) {
    (index, input_dir + rel, output_dir + rel, output_dir + rel.drop_last())
}

/// The jobs for `entries`, in the order of the walk.
pub open spec fn planned_jobs(
    input_dir: Seq<String>,
    output_dir: Seq<String>,
    entries: Seq<(Seq<String>, bool)>,
    recursive: bool,
) -> Seq<(int, Seq<String>, Seq<String>, Seq<String>)>
    decreases entries.len(),
{
    if entries.len() == 0 {
        Seq::empty()
    } else {
        let prev = planned_jobs(input_dir, output_dir, entries.drop_last(), recursive);
        let e = entries.last();
        if keeps_entry(e.0, e.1, recursive) {
            prev.push(job_for(entries.len() - 1, input_dir, output_dir, e.0))
        } else {
            prev
        }
    }
}

/// The walk entries as plain values.
pub open spec fn entries_view(entries: Seq<WalkEntry>) -> Seq<(Seq<String>, bool)> {
    entries.map_values(|e: WalkEntry| e.view())
}

/// The jobs as plain values.
pub open spec fn jobs_view(jobs: Seq<ResizeJob>) -> Seq<(int, Seq<String>, Seq<String>, Seq<String>)> {
    jobs.map_values(|j: ResizeJob| j.view())
}

/// `a` followed by the first `len` components of `b`.
fn join_path(a: &Vec<String>, b: &Vec<String>, len: usize) -> (r: Vec<String>)
    requires
        len <= b@.len(),
    ensures
        r@ == a@ + b@.take(len as int),
{
    let mut r: Vec<String> = Vec::new();
    let mut i: usize = 0;
    while i < a.len()
        invariant
            i <= a@.len(),
            r@ == a@.take(i as int),
        decreases a@.len() - i,
    {
        r.push(a[i].clone());
        i = i + 1;
        assert(r@ =~= a@.take(i as int));
    }
    let mut j: usize = 0;
    while j < len
        invariant
            len <= b@.len(),
            i == a@.len(),
            j <= len,
            r@ == a@ + b@.take(j as int),
        decreases len - j,
    {
        r.push(b[j].clone());
        j = j + 1;
        assert(r@ =~= a@ + b@.take(j as int));
    }
    assert(a@.take(a@.len() as int) =~= a@);
    r
}

/// Plans a batch: for each entry of the walk of `input_dir` that is an image
/// file (and a direct child, unless `recursive`), in the walk's order, reads
/// it under `input_dir` and writes it at the same relative place under
/// `output_dir`.
pub fn plan_directory(
    input_dir: &Vec<String>,
    output_dir: &Vec<String>,
    entries: &Vec<WalkEntry>,
    recursive: bool,
) -> (r: Vec<ResizeJob>)
    ensures
        jobs_view(r@) == planned_jobs(input_dir@, output_dir@, entries_view(entries@), recursive),
{
    let mut r: Vec<ResizeJob> = Vec::new();
    let mut i: usize = 0;
    while i < entries.len()
        invariant
            i <= entries@.len(),
            jobs_view(r@) == planned_jobs(
                input_dir@,
                output_dir@,
                entries_view(entries@.take(i as int)),
                recursive,
            ),
        decreases entries@.len() - i,
    {
        let e = &entries[i];
        let ghost ev = entries_view(entries@.take(i + 1));
        assert(ev.drop_last() =~= entries_view(entries@.take(i as int)));
        assert(ev.last() == e.view());
        let n = e.rel.len();
        let keep = e.is_file && n >= 1 && (recursive || n == 1) && has_image_extension(
            e.rel[n - 1].as_str(),
        );
        if keep {
            let job = ResizeJob {
                entry: i,
                source: join_path(input_dir, &e.rel, n),
                destination: join_path(output_dir, &e.rel, n),
                destination_dir: join_path(output_dir, &e.rel, n - 1),
            };
            assert(e.rel@.take(n as int) =~= e.rel@);
            assert(e.rel@.take(n - 1) =~= e.rel@.drop_last());
            r.push(job);
            assert(jobs_view(r@) =~= jobs_view(r@.drop_last()).push(job.view()));
        }
        i = i + 1;
    }
    assert(entries@.take(entries@.len() as int) =~= entries@);
    r
}

/// Decides what an input path is from what the file system says of it.
pub fn classify_input(is_file: bool, is_dir: bool) -> (r: Result<InputKind, ResizeError>)
    ensures
        is_file ==> r == Ok::<InputKind, ResizeError>(InputKind::File),
        !is_file && is_dir ==> r == Ok::<InputKind, ResizeError>(InputKind::Directory),
        !is_file && !is_dir ==> r == Err::<InputKind, ResizeError>(ResizeError::InvalidInputPath),
{
    if is_file {
        Ok(InputKind::File)
    } else if is_dir {
        Ok(InputKind::Directory)
    } else {
        Err(ResizeError::InvalidInputPath)
    }
}

} // verus!
