//! `yata-reader`: reads the player's own data from the running game, from outside and
//! read-only, and hands it to Yata's daemon, or writes it to an export file.

pub mod backend;
pub mod clock;
pub mod desktop;
pub mod export;
pub mod layout;
pub mod platform;
pub mod probe;
pub mod session;
pub mod text;

use vstd::prelude::*;

verus! {

/// This build's identity, as the handshake's acknowledgement and exports carry it: the
/// version, and after a plus sign the source it was built from.
pub const BUILD_ID: &'static str = "yata-reader 0.1.0+source";

/// The prefix of every pipe name the daemon creates.
pub const PIPE_PREFIX: &'static str = "\\\\.\\pipe\\yata-reader-";

/// Whether a character is a lowercase hexadecimal digit.
pub open spec fn is_lower_hex(c: char) -> bool {
    ('0' <= c && c <= '9') || ('a' <= c && c <= 'f')
}

/// The names the daemon creates: the prefix, then 32 lowercase hexadecimal digits.
pub open spec fn is_pipe_name(name: Seq<char>) -> bool {
    let prefix = PIPE_PREFIX@;
    &&& name.len() == prefix.len() + 32
    &&& name.subrange(0, prefix.len() as int) == prefix
    &&& forall|i: int| prefix.len() <= i < name.len() ==> is_lower_hex(#[trigger] name[i])
}

/// A pipe name the daemon creates. Any other name is refused before the reader connects.
#[derive(Debug, Clone, PartialEq, Eq)]
pub struct PipeName(String);

impl PipeName {
    pub closed spec fn view(&self) -> Seq<char> {
        self.0@
    }

    pub fn parse(name: &str) -> (r: Option<PipeName>)
        ensures
            r is Some <==> is_pipe_name(name@),
            r matches Some(p) ==> p.view() == name@,
    {
        let prefix = PIPE_PREFIX;
        assert(prefix@ == PIPE_PREFIX@);
        let plen = prefix.unicode_len();
        let nlen = name.unicode_len();
        if nlen < 32 || nlen - 32 != plen {
            return None;
        }
        let mut i: usize = 0;
        while i < plen
            invariant
                prefix@ == PIPE_PREFIX@,
                plen == prefix@.len(),
                nlen == name@.len(),
                nlen == plen + 32,
                i <= plen,
                forall|j: int| 0 <= j < i ==> name@[j] == prefix@[j],
            decreases plen - i,
        {
            if name.get_char(i) != prefix.get_char(i) {
                assert(name@.subrange(0, plen as int)[i as int] != prefix@[i as int]);
                assert(!is_pipe_name(name@));
                return None;
            }
            i += 1;
        }
        assert(name@.subrange(0, plen as int) =~= prefix@);
        while i < nlen
            invariant
                prefix@ == PIPE_PREFIX@,
                plen == prefix@.len(),
                nlen == name@.len(),
                plen <= i <= nlen,
                forall|j: int| plen <= j < i ==> is_lower_hex(#[trigger] name@[j]),
            decreases nlen - i,
        {
            let c = name.get_char(i);
            if !(('0' <= c && c <= '9') || ('a' <= c && c <= 'f')) {
                assert(!is_lower_hex(name@[i as int]));
                assert(!is_pipe_name(name@));
                return None;
            }
            i += 1;
        }
        Some(PipeName(name.to_owned()))
    }

    pub fn as_str(&self) -> (r: &str)
        ensures
            r@ == self.view(),
    {
        self.0.as_str()
    }
}

} // verus!
