//! The choice of a serialization format by its name. Reading and writing the data
//! itself is done outside the library.
use vstd::prelude::*;

verus! {

/// The supported serialization formats.
#[derive(Debug, Clone, Copy, PartialEq, Eq, Structural)]
pub enum Format {
    /// JSON, by `serde_json`.
    SerdeJson,
    /// The binary format of `bincode`.
    Bincode,
}

/// The error for a format name that is not supported; it holds the name.
#[derive(Debug)]
pub struct UnknownFormat(String);

impl UnknownFormat {
    /// The name of the format.
    pub closed spec fn name_view(&self) -> Seq<char> {
        self.0@
    }

    /// The name of the format.
    pub fn name(&self) -> (r: &String)
        ensures
            r@ == self.name_view(),
    {
        &self.0
    }
}

/// Whether the string holds exactly the characters of `lit`.
fn str_equals(s: &str, lit: &str) -> (r: bool)
    ensures
        r == (s@ == lit@),
{
    let n = s.unicode_len();
    let m = lit.unicode_len();
    if n != m {
        return false;
    }
    let mut i: usize = 0;
    while i < n
        invariant
            n == s@.len(),
            m == lit@.len(),
            n == m,
            i <= n,
            forall|k: int| 0 <= k < i ==> s@[k] == lit@[k],
        decreases n - i,
    {
        if s.get_char(i) != lit.get_char(i) {
            return false;
        }
        i += 1;
    }
    proof {
        assert(s@ =~= lit@);
    }
    true
}

/// The format of a name: `serde_json`, or `bincode` where the binary format is allowed
/// (writing to and reading from strings only supports `serde_json`); any other name is
/// unknown.
pub fn format_of(name: &str, allow_bincode: bool) -> (r: Result<Format, UnknownFormat>)
    ensures
        name@ == "serde_json"@ ==> r == Ok::<Format, UnknownFormat>(Format::SerdeJson),
        name@ != "serde_json"@ && allow_bincode && name@ == "bincode"@ ==> r == Ok::<
            Format,
            UnknownFormat,
        >(Format::Bincode),
        name@ != "serde_json"@ && !(allow_bincode && name@ == "bincode"@) ==> (r matches Err(e)
            && e.name_view() == name@),
{
    if str_equals(name, "serde_json") {
        Ok(Format::SerdeJson)
    } else if allow_bincode && str_equals(name, "bincode") {
        Ok(Format::Bincode)
    } else {
        Err(UnknownFormat(name.to_owned()))
    }
}

} // verus!
