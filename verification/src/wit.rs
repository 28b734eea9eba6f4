//! Wii disc images and the `wit` tool: recognizing wbfs files, where
//! conversions between wbfs and iso write, the `wit` command lines, reading
//! their outcome and the version that `wit` reports.
use vstd::prelude::*;
use crate::model::Romfile;
use crate::path::{
    extension, extension_of, file_name, file_name_of, join, join_path, opt_view, law_extension_of_with_extension,
    law_join_file_name, law_with_extension_of_join, lemma_file_name_shape, stem_len, with_extension,
    with_extension_of,
};
use crate::pattern::{compile, first_match, regex_compiles, regex_first_match};
use crate::text::{contains, first_line, first_line_of};

verus! {

/// The program that converts Wii images.
pub const WIT: &'static str = "wit";

/// A Wii image in the WBFS format.
#[derive(Clone, Debug, PartialEq, Eq)]
pub struct WbfsRomfile {
    pub path: String,
}

/// A disc image in the ISO format.
#[derive(Clone, Debug, PartialEq, Eq)]
pub struct IsoRomfile {
    pub path: String,
}

/// What went wrong with a Wii image.
#[derive(Debug, PartialEq, Eq)]
pub enum WitError {
    /// The file is not a WBFS image.
    NotWbfs,
    /// `wit` failed; it said this on its error output.
    CommandFailed(String),
}

/// The lowercase form of `s`, as `str::to_lowercase` computes it from the
/// Unicode lowercase mappings.
pub uninterp spec fn lowercase(s: Seq<char>) -> Seq<char>;

/// Calls `str::to_lowercase`. Claims only that the result is the named
/// lowercase form of `s`; the Unicode mapping itself is left unsaid.
#[verifier::external_body]
fn to_lowercase(s: &str) -> (r: String)
    ensures
        r@ == lowercase(s@),
{
    s.to_lowercase()
}

/// A path names a WBFS image where its extension, lowercased, is `wbfs`.
pub open spec fn is_wbfs_path(path: Seq<char>) -> bool {
    lowercase(extension(path)->0) == "wbfs"@
}

/// What recognizing `path` as a WBFS image gives.
pub open spec fn wbfs_from_path(path: Seq<char>) -> Result<Seq<char>, WitError> {
    if is_wbfs_path(path) {
        Ok(path)
    } else {
        Err(WitError::NotWbfs)
    }
}

impl WbfsRomfile {
    /// The WBFS image at `path`, which must have an extension; an error where
    /// the extension is not `wbfs` in any case.
    pub fn from_path(path: &str) -> (r: Result<WbfsRomfile, WitError>)
        requires
            extension(path@) is Some,
        ensures
            match wbfs_from_path(path@) {
                Ok(p) => r matches Ok(w) && w.path@ == p,
                Err(e) => r == Err::<WbfsRomfile, WitError>(e),
            },
    {
        let ext = match extension_of(path) {
            Some(e) => e,
            None => {
                assert(false);
                String::new()
            },
        };
        let lower = to_lowercase(ext.as_str());
        if lower == String::from_str("wbfs") {
            Ok(WbfsRomfile { path: String::from_str(path) })
        } else {
            Err(WitError::NotWbfs)
        }
    }
}

/// Things that can be read as a WBFS image.
pub trait AsWbfs {
    /// The path that would be read as a WBFS image.
    spec fn wbfs_source(&self) -> Seq<char>;

    /// This as a WBFS image; its path must have an extension.
    fn as_wbfs(&self) -> (r: Result<WbfsRomfile, WitError>)
        requires
            extension(self.wbfs_source()) is Some,
        ensures
            match wbfs_from_path(self.wbfs_source()) {
                Ok(p) => r matches Ok(w) && w.path@ == p,
                Err(e) => r == Err::<WbfsRomfile, WitError>(e),
            },
    ;
}

impl AsWbfs for Romfile {
    open spec fn wbfs_source(&self) -> Seq<char> {
        self.path@
    }

    fn as_wbfs(&self) -> (r: Result<WbfsRomfile, WitError>) {
        WbfsRomfile::from_path(self.path.as_str())
    }
}

/// Where converting the image at `source` writes into `dir`: the file name of
/// `source` in `dir`, with its extension replaced by `ext`.
pub open spec fn converted_path(source: Seq<char>, dir: Seq<char>, ext: Seq<char>) -> Seq<char> {
    with_extension(join(dir, file_name(source)->0), ext)
}

/// Where `join` then `with_extension` leave a converted image.
fn converted_path_of(source: &str, dir: &str, ext: &str) -> (r: String)
    requires
        file_name(source@) is Some,
    ensures
        r@ == converted_path(source@, dir@, ext@),
{
    let name = match file_name_of(source) {
        Some(n) => n,
        None => {
            assert(false);
            String::new()
        },
    };
    let joined = join_path(dir, name.as_str());
    with_extension_of(joined.as_str(), ext)
}

impl WbfsRomfile {
    /// Where converting this image to ISO writes in `destination_directory`;
    /// its path must have a file name.
    pub fn iso_destination(&self, destination_directory: &str) -> (r: String)
        requires
            file_name(self.path@) is Some,
        ensures
            r@ == converted_path(self.path@, destination_directory@, "iso"@),
    {
        converted_path_of(self.path.as_str(), destination_directory, "iso")
    }
}

impl IsoRomfile {
    /// Where converting this image to WBFS writes in `destination_directory`;
    /// its path must have a file name.
    pub fn wbfs_destination(&self, destination_directory: &str) -> (r: String)
        requires
            file_name(self.path@) is Some,
        ensures
            r@ == converted_path(self.path@, destination_directory@, "wbfs"@),
    {
        converted_path_of(self.path.as_str(), destination_directory, "wbfs")
    }
}

/// The format `wit` converts into.
#[derive(Clone, Copy, Debug, PartialEq, Eq)]
pub enum WitFormat {
    Iso,
    Wbfs,
}

/// The `wit` switch for a format.
pub open spec fn format_switch(format: WitFormat) -> Seq<char> {
    match format {
        WitFormat::Iso => "--iso"@,
        WitFormat::Wbfs => "--wbfs"@,
    }
}

/// The arguments of `wit` that copy `source` to `dest` in `format`.
pub open spec fn copy_arguments_spec(format: WitFormat, source: Seq<char>, dest: Seq<char>) -> Seq<Seq<char>> {
    seq!["COPY"@, format_switch(format), "--source"@, source, "--dest"@, dest]
}

/// The arguments of `wit` that copy `source` to `dest` in `format`.
pub fn copy_arguments(format: WitFormat, source: &str, dest: &str) -> (r: Vec<String>)
    ensures
        r@.map_values(|s: String| s@) == copy_arguments_spec(format, source@, dest@),
{
    let mut r: Vec<String> = Vec::new();
    r.push(String::from_str("COPY"));
    match format {
        WitFormat::Iso => r.push(String::from_str("--iso")),
        WitFormat::Wbfs => r.push(String::from_str("--wbfs")),
    }
    r.push(String::from_str("--source"));
    r.push(String::from_str(source));
    r.push(String::from_str("--dest"));
    r.push(String::from_str(dest));
    assert(r@.map_values(|s: String| s@) =~= copy_arguments_spec(format, source@, dest@));
    r
}

/// The ISO image that a finished `wit` copy to `path` produced: the image
/// where `wit` succeeded, its error output as the error otherwise.
pub fn iso_after_copy(success: bool, stderr: String, path: String) -> (r: Result<IsoRomfile, WitError>)
    ensures
        success ==> r == Ok::<IsoRomfile, WitError>(IsoRomfile { path }),
        !success ==> r == Err::<IsoRomfile, WitError>(WitError::CommandFailed(stderr)),
{
    if success {
        Ok(IsoRomfile { path })
    } else {
        Err(WitError::CommandFailed(stderr))
    }
}

/// The WBFS image that a finished `wit` copy to `path` produced: the image
/// where `wit` succeeded, its error output as the error otherwise.
pub fn wbfs_after_copy(success: bool, stderr: String, path: String) -> (r: Result<WbfsRomfile, WitError>)
    ensures
        success ==> r == Ok::<WbfsRomfile, WitError>(WbfsRomfile { path }),
        !success ==> r == Err::<WbfsRomfile, WitError>(WitError::CommandFailed(stderr)),
{
    if success {
        Ok(WbfsRomfile { path })
    } else {
        Err(WitError::CommandFailed(stderr))
    }
}

/// The pattern of a version number, such as `3.05a`.
pub open spec fn version_pattern() -> Seq<char> {
    "\\d+\\.[\\d\\w]+"@
}

/// The version that `wit --version` reports in `stdout`: the first match of
/// the version pattern in the first line, or `unknown` where there is none.
/// None where the `regex` crate refuses the version pattern.
pub open spec fn version_spec(stdout: Seq<char>) -> Option<Seq<char>> {
    if !regex_compiles(version_pattern()) {
        None
    } else {
        Some(
            match first_line(stdout) {
                Some(l) => match regex_first_match(version_pattern(), l) {
                    Some(v) => v,
                    None => "unknown"@,
                },
                None => "unknown"@,
            },
        )
    }
}

/// The version that `wit --version` reports in `stdout` (see `version_spec`).
pub fn version_from_output(stdout: &str) -> (r: Option<String>)
    ensures
        opt_view(r) == version_spec(stdout@),
        r matches Some(v) ==> v@ == "unknown"@ || contains(first_line(stdout@)->0, v@),
{
    let m = match compile("\\d+\\.[\\d\\w]+") {
        Some(m) => m,
        None => {
            return None;
        },
    };
    match first_line_of(stdout) {
        Some(line) => match first_match(&m, line.as_str()) {
            Some(v) => Some(v),
            None => Some(String::from_str("unknown")),
        },
        None => Some(String::from_str("unknown")),
    }
}

/// A conversion writes into the destination directory a file named after the
/// source's stem, with the new extension: `dir/game.wbfs` becomes
/// `dest/game.iso`. The new extension must be non-empty and free of dots and
/// separators.
pub proof fn law_converted_path(source: Seq<char>, dir: Seq<char>, ext: Seq<char>)
    requires
        file_name(source) is Some,
        ext.len() > 0,
        forall|i: int| 0 <= i < ext.len() ==> ext[i] != '.' && ext[i] != '/',
    ensures
        ({
            let n = file_name(source)->0;
            &&& converted_path(source, dir, ext) == join(dir, n.take(stem_len(n)) + seq!['.'] + ext)
            &&& extension(converted_path(source, dir, ext)) == Some(ext)
        }),
{
    let n = file_name(source)->0;
    lemma_file_name_shape(source);
    law_join_file_name(dir, n);
    law_with_extension_of_join(dir, n, ext);
    law_extension_of_with_extension(join(dir, n), ext);
}

} // verus!
