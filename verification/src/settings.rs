//! The few things the application has to remember that are not in the photos.
//!
//! They live in a table of their own next to the journal, because like the journal they have to
//! outlive a cache rebuild: the cache is thrown away whenever it is convenient, and an
//! acknowledgement the user gave once must not be asked for again because of it.

use vstd::prelude::*;

use crate::clock::{dates, stamp_seconds};
use crate::text::{copy, view_opt};

verus! {

/// That the user said, once, that their photos are backed up somewhere else.
pub const BACKUP_ACKNOWLEDGED: &'static str = "backup-acknowledged";

/// Where they said the backup is. Help for them, never proof for us.
pub const BACKUP_LOCATION: &'static str = "backup-location";

/// What can be said about a place the user named as their backup. All of it is help for a person
/// reading a dialog, and none of it is proof that a single photo is safe anywhere.
#[derive(Debug, Clone, PartialEq, Eq)]
pub struct Backup {
    pub path: String,
    pub there: bool,
    pub empty: bool,
    /// When anything in it was last changed, in the one date format.
    pub last_touched: Option<String>,
}

impl Backup {
    pub open spec fn told(self) -> Seq<char> {
        if !self.there {
            self.path@ + " is not there."@
        } else if self.empty {
            self.path@ + " is empty."@
        } else {
            match self.last_touched {
                Some(when) => self.path@ + " was last changed on "@ + when@ + "."@,
                None => self.path@ + " is there and is not empty."@,
            }
        }
    }

    /// One sentence for the dialog.
    pub fn tells(&self) -> (words: String)
        ensures
            words@ == self.told(),
    {
        if !self.there {
            return self.path.clone().concat(" is not there.");
        }
        if self.empty {
            return self.path.clone().concat(" is empty.");
        }
        match &self.last_touched {
            Some(when) => self.path.clone().concat(" was last changed on ").concat(when).concat(
                ".",
            ),
            None => self.path.clone().concat(" is there and is not empty."),
        }
    }
}

/// The latest of the moments that are known.
pub open spec fn latest(touched: Seq<Option<u64>>) -> Option<u64>
    decreases touched.len(),
{
    if touched.len() == 0 {
        None
    } else {
        match (latest(touched.drop_last()), touched.last()) {
            (Some(a), Some(b)) => Some(
                if a < b {
                    b
                } else {
                    a
                },
            ),
            (Some(a), None) => Some(a),
            (None, last) => last,
        }
    }
}

/// What a look at a backup location came to: whether it is a directory, and when each entry in it
/// was changed, in seconds of Unix time, where it could be listed at all.
pub fn look_at(path: &str, there: bool, entries: Option<Vec<Option<u64>>>) -> (backup: Backup)
    ensures
        backup.path@ == path@,
        backup.there == there,
        backup.empty == (entries is None || entries->0@.len() == 0),
        match (entries, backup.last_touched) {
            (None, last) => last is None,
            (Some(entries), Some(when)) => latest(entries@) matches Some(seconds) && dates(
                when@,
                seconds as nat,
            ),
            (Some(entries), None) => latest(entries@) is None,
        },
{
    let mut newest: Option<u64> = None;
    let mut nothing = true;
    if let Some(list) = &entries {
        for i in 0..list.len()
            invariant
                newest == latest(list@.take(i as int)),
        {
            assert(list@.take(i + 1).drop_last() =~= list@.take(i as int));
            if let Some(seconds) = list[i] {
                newest = match newest {
                    Some(before) => {
                        if before < seconds {
                            Some(seconds)
                        } else {
                            Some(before)
                        }
                    },
                    None => Some(seconds),
                };
            }
        }
        assert(list@.take(list@.len() as int) =~= list@);
        nothing = list.len() == 0;
    }
    let last_touched = match newest {
        Some(seconds) => Some(stamp_seconds(seconds)),
        None => None,
    };
    Backup { path: copy(path), there, empty: nothing, last_touched }
}

/// Whether the user still has to be asked before anything is ever written to a photo. Once they
/// have acknowledged it, or once something has been written, the question is settled for good.
pub fn must_ask(acknowledged: Option<&str>, ever_written: bool) -> (yes: bool)
    ensures
        yes == (acknowledged is None && !ever_written),
{
    acknowledged.is_none() && !ever_written
}

/// What becomes of one setting: a text is kept, and with none it is forgotten.
#[derive(Debug, Clone, PartialEq, Eq)]
pub struct Put {
    pub name: &'static str,
    pub value: Option<String>,
}

/// Records the acknowledgement, and the backup location if the user named one.
pub fn acknowledge(backup: Option<&str>) -> (puts: Vec<Put>)
    ensures
        puts@.len() == 2,
        puts@[0].name@ == BACKUP_ACKNOWLEDGED@,
        view_opt(puts@[0].value) == Some("yes"@),
        puts@[1].name@ == BACKUP_LOCATION@,
        match (backup, puts@[1].value) {
            (Some(path), Some(value)) => value@ == path@,
            (None, None) => true,
            _ => false,
        },
{
    let location = match backup {
        Some(path) => Some(copy(path)),
        None => None,
    };
    let mut puts: Vec<Put> = Vec::new();
    puts.push(Put { name: BACKUP_ACKNOWLEDGED, value: Some(copy("yes")) });
    puts.push(Put { name: BACKUP_LOCATION, value: location });
    puts
}

/// The latest moment is one of those known, and none known is later.
pub proof fn no_moment_is_later_than_the_latest(touched: Seq<Option<u64>>)
    ensures
        latest(touched) is None <==> (forall|i: int|
            0 <= i < touched.len() ==> (#[trigger] touched[i]) is None),
        latest(touched) matches Some(last) ==> touched.contains(Some(last)) && forall|i: int|
            0 <= i < touched.len() ==> ((#[trigger] touched[i]) matches Some(when) ==> when <= last),
    decreases touched.len(),
{
    if touched.len() > 0 {
        let front = touched.drop_last();
        no_moment_is_later_than_the_latest(front);
        assert forall|i: int| 0 <= i < front.len() implies #[trigger] front[i] == touched[i] by {}
        assert(touched[touched.len() - 1] == touched.last());
        if latest(front) is Some {
            let last = latest(front)->0;
            let i = choose|i: int| 0 <= i < front.len() && front[i] == Some(last);
            assert(touched[i] == Some(last));
        }
        if latest(touched) is Some {
            let last = latest(touched)->0;
            assert forall|i: int| 0 <= i < touched.len() implies ((#[trigger] touched[i]) matches Some(
                when,
            ) ==> when <= last) by {
                if i < front.len() {
                    assert(front[i] == touched[i]);
                }
            }
        } else {
            assert forall|i: int| 0 <= i < touched.len() implies (#[trigger] touched[i]) is None by {
                if i < front.len() {
                    assert(front[i] == touched[i]);
                }
            }
        }
        if forall|i: int| 0 <= i < touched.len() ==> (#[trigger] touched[i]) is None {
            assert forall|i: int| 0 <= i < front.len() implies (#[trigger] front[i]) is None by {
                assert(touched[i] is None);
            }
        }
    }
}

} // verus!
