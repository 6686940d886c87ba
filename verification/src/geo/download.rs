//! Fetching the GeoNames dumps. The only thing in this application that talks to the network,
//! and it only runs because someone pressed a button.

use vstd::prelude::*;

use crate::geo::import::SOURCE;
use crate::geo::{Error, ErrorView};
use crate::paths::{below, join_path};
use crate::text::{copy, starts};

verus! {

/// What is fetched, and the name each file is saved under.
pub const FILES: [&'static str; 4] = [
    "countryInfo.txt",
    "admin1CodesASCII.txt",
    "cities1000.zip",
    "shapes_simplified_low.json.zip",
];

/// Nothing we fetch is anywhere near this large; a redirect to something else would be.
pub const LIMIT: u64 = 268_435_456;

#[derive(Debug, Clone, Copy, PartialEq, Eq)]
pub struct Step {
    pub file: &'static str,
    pub done: usize,
    pub of: usize,
}

/// What a download does next.
#[derive(Debug, Clone, PartialEq, Eq)]
pub enum Next {
    /// It was stopped.
    Stop(Error),
    /// Tell the step, fetch from the address and save at the path.
    Fetch { step: Step, url: String, target: String },
    /// Tell the step: every file has landed.
    Done(Step),
}

/// What a download does once so many files have landed, and whether it was stopped.
pub fn next(done: usize, stopped: bool, dir: &str) -> (next: Next)
    ensures
        if done >= FILES@.len() {
            next == Next::Done(Step { file: FILES@[3], done: 4, of: 4 })
        } else if stopped {
            next matches Next::Stop(error) && error@ == ErrorView::Malformed(
                "the download was stopped"@,
            )
        } else {
            match next {
                Next::Fetch { step, url, target } => {
                    &&& step == (Step { file: FILES@[done as int], done, of: 4 })
                    &&& url@ == SOURCE@ + FILES@[done as int]@
                    &&& target@ == below(dir@, FILES@[done as int]@)
                },
                _ => false,
            }
        },
{
    let files = FILES;
    if done >= files.len() {
        return Next::Done(Step { file: files[3], done: 4, of: 4 });
    }
    if stopped {
        return Next::Stop(Error::Malformed(copy("the download was stopped")));
    }
    Next::Fetch {
        step: Step { file: files[done], done, of: 4 },
        url: copy(SOURCE).concat(files[done]),
        target: join_path(dir, files[done]),
    }
}

/// What came of a fetch: an empty file is none.
pub fn landed(url: &str, bytes: u64) -> (error: Option<Error>)
    ensures
        match error {
            Some(error) => bytes == 0 && error@ == ErrorView::Malformed(url@ + " sent nothing"@),
            None => bytes > 0,
        },
{
    if bytes == 0 {
        Some(Error::Malformed(copy(url).concat(" sent nothing")))
    } else {
        None
    }
}

/// Every file is asked for at GeoNames and nowhere else.
pub proof fn only_geonames_is_asked(file: Seq<char>)
    ensures
        starts(SOURCE@ + file, "https://download.geonames.org/"@),
{
    reveal_strlit("https://download.geonames.org/export/dump/");
    reveal_strlit("https://download.geonames.org/");
    let url = SOURCE@ + file;
    let start = "https://download.geonames.org/"@;
    assert(url.take(start.len() as int) =~= start);
}

} // verus!
