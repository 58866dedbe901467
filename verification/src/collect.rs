//! The file collector's decisions: which of the named files are candidates.
//!
//! Looking at the disk is the caller's business.  The caller says of each
//! name whether it is a file and, where directories are traversed, which
//! files it found below it; [`gather_files`] picks the candidates and tells
//! what it left out and why.

use crate::tracker::texts;
use vstd::prelude::*;

verus! {

/// The extension of a path, as `std::path::Path::extension` finds it on the
/// platform the library is built for.
pub uninterp spec fn extension_of(path: Seq<char>) -> Option<Seq<char>>;

/// The lowercase form of a text, as `str::to_lowercase` gives it.
pub uninterp spec fn lowercase_of(text: Seq<char>) -> Seq<char>;

/// `Path::extension` of std, on a path given as text: the part of the final
/// component after its last dot, if it has one that is not its first
/// character.  The contract gives the result its name and says no more.
#[verifier::external_body]
fn path_extension(path: &str) -> (extension: Option<String>)
    ensures
        extension is Some == extension_of(path@) is Some,
        extension matches Some(text) ==> extension_of(path@) == Some(text@),
{
    match std::path::Path::new(path).extension() {
        Some(extension) => Some(extension.to_string_lossy().into_owned()),
        None => None,
    }
}

/// `str::to_lowercase` of std.  The contract gives the result its name and
/// says no more.
#[verifier::external_body]
fn lowercase(text: &str) -> (lower: String)
    ensures
        lower@ == lowercase_of(text@),
{
    text.to_lowercase()
}

/// `==` of std on string slices: two slices are equal when they hold the
/// same characters.
pub assume_specification[ <str as PartialEq>::eq ](this: &str, other: &str) -> (same: bool)
    ensures
        same == (this@ == other@),
;

/// Whether a lowercase extension is that of a supported image format.
pub open spec fn is_supported(extension: Seq<char>) -> bool {
    ||| extension == "jpg"@
    ||| extension == "jpeg"@
    ||| extension == "jfif"@
    ||| extension == "png"@
    ||| extension == "gif"@
    ||| extension == "bmp"@
    ||| extension == "ico"@
    ||| extension == "tiff"@
    ||| extension == "webp"@
    ||| extension == "avif"@
    ||| extension == "pbm"@
    ||| extension == "pgm"@
    ||| extension == "ppm"@
    ||| extension == "tga"@
}

/// Tells whether a lowercase extension is that of a supported image format.
pub fn is_supported_extension(extension: &str) -> (supported: bool)
    ensures
        supported == is_supported(extension@),
{
    extension.eq("jpg") || extension.eq("jpeg") || extension.eq("jfif") || extension.eq("png")
        || extension.eq("gif") || extension.eq("bmp") || extension.eq("ico") || extension.eq("tiff")
        || extension.eq("webp") || extension.eq("avif") || extension.eq("pbm") || extension.eq("pgm")
        || extension.eq("ppm") || extension.eq("tga")
}

/// The extension that decides on a path: its own, or the empty text if it
/// has none.
pub open spec fn extension_text(path: Seq<char>) -> Seq<char> {
    match extension_of(path) {
        Some(extension) => extension,
        None => Seq::empty(),
    }
}

/// Whether a path names a file of a supported image format: whether its
/// extension, in lowercase, is one of the supported ones.
pub open spec fn is_allowed(path: Seq<char>) -> bool {
    is_supported(lowercase_of(extension_text(path)))
}

/// Tells whether `filename` names a file of a supported image format, going
/// by its extension without regard to case.
pub fn is_allowed_ext(filename: &String) -> (allowed: bool)
    ensures
        allowed == is_allowed(filename@),
{
    let lower = match path_extension(filename.as_str()) {
        Some(extension) => lowercase(extension.as_str()),
        None => {
            proof {
                reveal_strlit("");
            }
            assert(""@ =~= Seq::<char>::empty());
            lowercase("")
        },
    };
    is_supported_extension(lower.as_str())
}

/// A name given to the collector, with what the caller found on disk.
#[derive(Debug, PartialEq, Eq)]
pub struct Candidate {
    pub path: String,
    /// Whether the name is that of a file.
    pub is_file: bool,
    /// The files found below the name, if it is a directory that was
    /// traversed.
    pub found: Vec<String>,
}

pub struct CandidateView {
    pub path: Seq<char>,
    pub is_file: bool,
    pub found: Seq<Seq<char>>,
}

impl View for Candidate {
    type V = CandidateView;

    open spec fn view(&self) -> CandidateView {
        CandidateView { path: self.path@, is_file: self.is_file, found: texts(self.found@) }
    }
}

/// A name that was left out.
#[derive(Debug, PartialEq, Eq)]
pub enum Ignored {
    /// The name is not that of a file, and directories are not traversed.
    NotRecursing(String),
    /// The file is not of a supported image format.
    Unsupported(String),
}

pub enum IgnoredView {
    NotRecursing(Seq<char>),
    Unsupported(Seq<char>),
}

impl View for Ignored {
    type V = IgnoredView;

    open spec fn view(&self) -> IgnoredView {
        match *self {
            Ignored::NotRecursing(path) => IgnoredView::NotRecursing(path@),
            Ignored::Unsupported(path) => IgnoredView::Unsupported(path@),
        }
    }
}

/// The candidate files, and what was left out.
#[derive(Debug, PartialEq, Eq)]
pub struct Gathered {
    /// The files to process, in order; at least one.
    pub files: Vec<String>,
    pub ignored: Vec<Ignored>,
}

/// No file is left to process.
#[derive(Debug, PartialEq, Eq)]
pub struct NoFiles {
    pub ignored: Vec<Ignored>,
}

impl NoFiles {
    /// The error as a message.
    pub fn message(&self) -> (message: String)
        ensures
            message@ == "No files to process"@,
    {
        "No files to process".to_owned()
    }
}

/// The candidates of a list, each as the contracts see it.
pub open spec fn candidates(list: Seq<Candidate>) -> Seq<CandidateView> {
    Seq::new(list.len(), |i: int| list[i]@)
}

/// The notices of a list, each as the contracts see it.
pub open spec fn notices(list: Seq<Ignored>) -> Seq<IgnoredView> {
    Seq::new(list.len(), |i: int| list[i]@)
}

/// The names that are files, in order.
pub open spec fn named_files(given: Seq<CandidateView>) -> Seq<Seq<char>>
    decreases given.len(),
{
    if given.len() == 0 {
        Seq::empty()
    } else if given.last().is_file {
        named_files(given.drop_last()).push(given.last().path)
    } else {
        named_files(given.drop_last())
    }
}

/// The files found below the names that are not files, in order; none
/// unless directories are traversed.
pub open spec fn found_files(given: Seq<CandidateView>, recurse: bool) -> Seq<Seq<char>>
    decreases given.len(),
{
    if given.len() == 0 {
        Seq::empty()
    } else if recurse && !given.last().is_file {
        found_files(given.drop_last(), recurse) + given.last().found
    } else {
        found_files(given.drop_last(), recurse)
    }
}

/// What is said of the names themselves, in order: a file of an unsupported
/// format is left out, and so is a name that is no file while directories
/// are not traversed.
pub open spec fn named_notices(given: Seq<CandidateView>, recurse: bool) -> Seq<IgnoredView>
    decreases given.len(),
{
    if given.len() == 0 {
        Seq::empty()
    } else {
        let earlier = named_notices(given.drop_last(), recurse);
        let name = given.last();
        if name.is_file {
            if is_allowed(name.path) {
                earlier
            } else {
                earlier.push(IgnoredView::Unsupported(name.path))
            }
        } else if recurse {
            earlier
        } else {
            earlier.push(IgnoredView::NotRecursing(name.path))
        }
    }
}

/// The notices for the files of an unsupported format among `paths`.
pub open spec fn unsupported(paths: Seq<Seq<char>>) -> Seq<IgnoredView> {
    paths.filter(|path: Seq<char>| !is_allowed(path)).map_values(|path: Seq<char>| IgnoredView::Unsupported(path))
}

/// The files to process: the names that are files, then the files found
/// below the others, as far as their format is supported.
pub open spec fn gathered_files(given: Seq<CandidateView>, recurse: bool) -> Seq<Seq<char>> {
    (named_files(given) + found_files(given, recurse)).filter(|path: Seq<char>| is_allowed(path))
}

/// What was left out, in the order in which it was come upon: first among
/// the names, then among the files found below them.
pub open spec fn gathered_notices(given: Seq<CandidateView>, recurse: bool) -> Seq<IgnoredView> {
    named_notices(given, recurse) + unsupported(found_files(given, recurse))
}

proof fn lemma_filter_push(paths: Seq<Seq<char>>, path: Seq<char>, keep: spec_fn(Seq<char>) -> bool)
    ensures
        paths.push(path).filter(keep) == (if keep(path) {
            paths.filter(keep).push(path)
        } else {
            paths.filter(keep)
        }),
{
    reveal(Seq::filter);
    assert(paths.push(path).drop_last() =~= paths);
}

/// Picks the files to process from the names given.
///
/// A name that is a file is a candidate.  A name that is no file is left
/// out with a notice unless directories are traversed (`recurse`); then the
/// files found below it are candidates, after all the names.  Of the
/// candidates those of a supported image format are kept.  Fails when none
/// is left.
pub fn gather_files(filenames: &Vec<Candidate>, recurse: bool) -> (gathered: Result<Gathered, NoFiles>)
    ensures
        match gathered {
            Ok(gathered) => {
                &&& texts(gathered.files@) == gathered_files(candidates(filenames@), recurse)
                &&& notices(gathered.ignored@) == gathered_notices(candidates(filenames@), recurse)
                &&& gathered.files.len() > 0
            },
            Err(error) => {
                &&& gathered_files(candidates(filenames@), recurse).len() == 0
                &&& notices(error.ignored@) == gathered_notices(candidates(filenames@), recurse)
            },
        },
{
    let ghost given = candidates(filenames@);
    let ghost allowed = |path: Seq<char>| is_allowed(path);
    let ghost refused = |path: Seq<char>| !is_allowed(path);
    let ghost refuse = |path: Seq<char>| IgnoredView::Unsupported(path);
    let mut files: Vec<String> = Vec::new();
    let mut ignored: Vec<Ignored> = Vec::new();
    let mut i: usize = 0;
    proof {
        reveal(Seq::filter);
        assert(texts(files@) =~= named_files(given.take(0)).filter(allowed));
        assert(notices(ignored@) =~= named_notices(given.take(0), recurse));
    }
    while i < filenames.len()
        invariant
            i <= filenames.len(),
            given == candidates(filenames@),
            allowed == |path: Seq<char>| is_allowed(path),
            texts(files@) == named_files(given.take(i as int)).filter(allowed),
            notices(ignored@) == named_notices(given.take(i as int), recurse),
        decreases filenames.len() - i,
    {
        let name = &filenames[i];
        proof {
            assert(given.take(i + 1).drop_last() =~= given.take(i as int));
            assert(given.take(i + 1).last() == name@);
            lemma_filter_push(named_files(given.take(i as int)), name.path@, allowed);
        }
        let ghost had = texts(files@);
        let ghost said = notices(ignored@);
        if name.is_file {
            if is_allowed_ext(&name.path) {
                files.push(name.path.clone());
                assert(texts(files@) =~= had.push(name.path@));
            } else {
                ignored.push(Ignored::Unsupported(name.path.clone()));
                assert(notices(ignored@) =~= said.push(IgnoredView::Unsupported(name.path@)));
            }
        } else if !recurse {
            ignored.push(Ignored::NotRecursing(name.path.clone()));
            assert(notices(ignored@) =~= said.push(IgnoredView::NotRecursing(name.path@)));
        }
        i += 1;
    }
    assert(given.take(i as int) =~= given);
    let ghost named = named_files(given).filter(allowed);
    let ghost said = named_notices(given, recurse);
    let mut k: usize = 0;
    proof {
        reveal(Seq::filter);
        let none = found_files(given.take(0), recurse);
        assert(none.filter(allowed) =~= Seq::<Seq<char>>::empty());
        assert(unsupported(none) =~= Seq::<IgnoredView>::empty());
        assert(texts(files@) =~= named + none.filter(allowed));
        assert(notices(ignored@) =~= said + unsupported(none));
    }
    while k < filenames.len()
        invariant
            k <= filenames.len(),
            given == candidates(filenames@),
            allowed == |path: Seq<char>| is_allowed(path),
            texts(files@) == named + found_files(given.take(k as int), recurse).filter(allowed),
            notices(ignored@) == said + unsupported(found_files(given.take(k as int), recurse)),
        decreases filenames.len() - k,
    {
        let name = &filenames[k];
        let ghost before = found_files(given.take(k as int), recurse);
        proof {
            assert(given.take(k + 1).drop_last() =~= given.take(k as int));
            assert(given.take(k + 1).last() == name@);
        }
        if recurse && !name.is_file {
            let mut j: usize = 0;
            assert(before + texts(name.found@).take(0) =~= before);
            while j < name.found.len()
                invariant
                    j <= name.found.len(),
                    allowed == |path: Seq<char>| is_allowed(path),
                    texts(files@) == named + (before + texts(name.found@).take(j as int)).filter(allowed),
                    notices(ignored@) == said + unsupported(before + texts(name.found@).take(j as int)),
                decreases name.found.len() - j,
            {
                let path = &name.found[j];
                let ghost walked = before + texts(name.found@).take(j as int);
                let ghost had = texts(files@);
                let ghost told = notices(ignored@);
                proof {
                    assert(before + texts(name.found@).take(j + 1) =~= walked.push(path@));
                    lemma_filter_push(walked, path@, allowed);
                    lemma_filter_push(walked, path@, |path: Seq<char>| !is_allowed(path));
                }
                if is_allowed_ext(path) {
                    files.push(path.clone());
                    assert(texts(files@) =~= had.push(path@));
                    assert(had.push(path@) =~= named + walked.filter(allowed).push(path@));
                } else {
                    ignored.push(Ignored::Unsupported(path.clone()));
                    assert(notices(ignored@) =~= told.push(IgnoredView::Unsupported(path@)));
                    assert(told.push(IgnoredView::Unsupported(path@)) =~= said + unsupported(
                        walked.push(path@),
                    ));
                }
                j += 1;
            }
            assert(texts(name.found@).take(j as int) =~= texts(name.found@));
        }
        k += 1;
    }
    assert(given.take(k as int) =~= given);
    proof {
        Seq::<Seq<char>>::filter_distributes_over_add(
            named_files(given),
            found_files(given, recurse),
            allowed,
        );
    }
    if files.len() == 0 {
        Err(NoFiles { ignored })
    } else {
        Ok(Gathered { files, ignored })
    }
}

} // verus!
