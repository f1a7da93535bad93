//! The meta-command surface the interactive layer consumes: list tables,
//! persist, restore, exit. A command line is its first space-separated
//! token; persist and restore take the following token as a path.

use vstd::prelude::*;
use vstd::string::{StringExecFns, StrSliceExecFns};

use crate::error::Error;

verus! {

/// One meta command, as the interactive layer dispatches it.
#[derive(Debug, PartialEq)]
pub enum MetaCommand {
    ListTables,
    Persist(String),
    Restore(String),
    Exit,
}

/// The index of the first space at or after `i`, or the length when there
/// is none.
pub open spec fn space_from(s: Seq<char>, i: int) -> int
    recommends
        0 <= i <= s.len(),
    decreases s.len() - i,
{
    if i < 0 || i >= s.len() {
        s.len() as int
    } else if s[i] == ' ' {
        i
    } else {
        space_from(s, i + 1)
    }
}

/// The command word: everything before the first space.
pub open spec fn first_token(s: Seq<char>) -> Seq<char> {
    s.subrange(0, space_from(s, 0))
}

/// The argument word: everything between the first and the second space,
/// if a first space exists at all.
pub open spec fn second_token(s: Seq<char>) -> Option<Seq<char>> {
    let a = space_from(s, 0);
    if a >= s.len() {
        None
    } else {
        Some(s.subrange(a + 1, space_from(s, a + 1)))
    }
}

/// The first space at or after `from`, found by scanning.
fn find_space(s: &str, from: usize) -> (r: usize)
    requires
        from <= s@.len(),
    ensures
        r == space_from(s@, from as int),
        from <= r <= s@.len(),
{
    let n = s.unicode_len();
    let mut i: usize = from;
    while i < n
        invariant
            n == s@.len(),
            from <= i <= n,
            space_from(s@, from as int) == space_from(s@, i as int),
        decreases n - i,
    {
        let c = s.get_char(i);
        if c == ' ' {
            return i;
        }
        i += 1;
    }
    n
}

impl MetaCommand {
    /// Parse a meta-command line: the first token names the command, and
    /// persist or restore demand a following token as their path.
    pub fn parse(s: &str) -> (r: Result<MetaCommand, Error>)
        ensures
            match r {
                Ok(m) => match m {
                    MetaCommand::Exit => first_token(s@) == ".exit"@,
                    MetaCommand::ListTables => first_token(s@) == ".tables"@,
                    MetaCommand::Persist(p) => first_token(s@) == ".persist"@ && second_token(s@)
                        == Some(p@),
                    MetaCommand::Restore(p) => first_token(s@) == ".restore"@ && second_token(s@)
                        == Some(p@),
                },
                Err(e) => e is InvalidMetaCommand && (first_token(s@) != ".exit"@ && first_token(
                    s@,
                ) != ".tables"@) && ((first_token(s@) == ".persist"@ || first_token(s@)
                    == ".restore"@) ==> second_token(s@) is None),
            },
    {
        let idx = find_space(s, 0);
        let first = s.substring_char(0, idx).to_owned();
        if first == ".exit".to_owned() {
            return Ok(MetaCommand::Exit);
        }
        if first == ".tables".to_owned() {
            return Ok(MetaCommand::ListTables);
        }
        let is_persist = first == ".persist".to_owned();
        let is_restore = first == ".restore".to_owned();
        if is_persist || is_restore {
            let n = s.unicode_len();
            if idx >= n {
                return Err(
                    Error::InvalidMetaCommand(
                        "persist and restore are expected to be followed by a path".to_owned(),
                    ),
                );
            }
            let idx2 = find_space(s, idx + 1);
            let path = s.substring_char(idx + 1, idx2).to_owned();
            if is_persist {
                return Ok(MetaCommand::Persist(path));
            }
            return Ok(MetaCommand::Restore(path));
        }
        Err(Error::InvalidMetaCommand(s.to_owned()))
    }
}

impl core::str::FromStr for MetaCommand {
    type Err = Error;

    fn from_str(s: &str) -> Result<MetaCommand, Error> {
        MetaCommand::parse(s)
    }
}

} // verus!
