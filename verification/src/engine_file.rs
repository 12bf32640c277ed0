use vstd::prelude::*;

use crate::error::KvsError;
use crate::text::{chars_eq, chars_of};

verus! {

/// Which storage engine owns a store directory. The directory may hold an
/// `engine` sentinel file whose single token names the engine that last
/// opened it; a server must not open the directory with the other engine.
#[derive(PartialEq, Eq, Structural, Clone, Copy, Debug)]
pub enum EngineChoice {
    Kvs,
    Sled,
}

/// The token an engine writes into the sentinel file.
pub open spec fn spec_engine_token(c: EngineChoice) -> Seq<char> {
    match c {
        EngineChoice::Kvs => "kvs"@,
        EngineChoice::Sled => "sled"@,
    }
}

/// The sentinel token of an engine.
pub fn engine_token(c: EngineChoice) -> (r: String)
    ensures
        r@ == spec_engine_token(c),
{
    match c {
        EngineChoice::Kvs => "kvs".to_owned(),
        EngineChoice::Sled => "sled".to_owned(),
    }
}

/// Read a sentinel token back: exactly the two engine tokens are accepted.
pub fn parse_engine_token(s: &str) -> (r: Option<EngineChoice>)
    ensures
        r == (if s@ == spec_engine_token(EngineChoice::Kvs) {
            Some(EngineChoice::Kvs)
        } else if s@ == spec_engine_token(EngineChoice::Sled) {
            Some(EngineChoice::Sled)
        } else {
            None::<EngineChoice>
        }),
{
    let sc = chars_of(s);
    let kvs_tok = chars_of(engine_token(EngineChoice::Kvs).as_str());
    if chars_eq(&sc, &kvs_tok) {
        return Some(EngineChoice::Kvs);
    }
    let sled_tok = chars_of(engine_token(EngineChoice::Sled).as_str());
    if chars_eq(&sc, &sled_tok) {
        return Some(EngineChoice::Sled);
    }
    None
}

/// Decide whether a server may start: the engine it selected against the
/// token found in the directory's sentinel file, if any. A mismatch is a
/// fatal startup error; an absent or unreadable sentinel imposes nothing.
pub fn check_engine(selected: EngineChoice, found: Option<EngineChoice>) -> (r: Result<
    EngineChoice,
    KvsError,
>)
    ensures
        match found {
            None => r matches Ok(c) && c == selected,
            Some(f) => {
                &&& f == selected ==> (r matches Ok(c) && c == selected)
                &&& f != selected ==> (r matches Err(e) && e is StringError)
            },
        },
{
    match found {
        None => Ok(selected),
        Some(f) => {
            if f == selected {
                Ok(selected)
            } else {
                Err(KvsError::StringError("Wrong engine!".to_owned()))
            }
        },
    }
}

} // verus!
