//! Decisions of the admin API: who is let in, and which new keys and
//! query flags are accepted.

use vstd::prelude::*;
use vstd::utf8::encode_utf8_decode_utf8;

use crate::text::{chars_equal, chars_of, string_from_chars, trim, trim_chars};

verus! {

/// Compares two keys without stopping at the first difference: every byte
/// pair is looked at, so the time taken depends on the length only.
pub fn constant_time_eq(a: &str, b: &str) -> (res: bool)
    ensures
        res == (a@ == b@),
{
    let x = a.as_bytes();
    let y = b.as_bytes();
    proof {
        encode_utf8_decode_utf8(a@);
        encode_utf8_decode_utf8(b@);
    }
    if x.len() != y.len() {
        assert(x@ != y@);
        return false;
    }
    let n = x.len();
    let mut diff: u8 = 0;
    let mut i: usize = 0;
    while i < n
        invariant
            i <= n,
            n == x@.len(),
            n == y@.len(),
            (diff == 0) == (forall|j: int| 0 <= j < i ==> x@[j] == y@[j]),
        decreases n - i,
    {
        let p = x[i];
        let q = y[i];
        let d = diff | (p ^ q);
        assert((diff | (p ^ q)) == 0 <==> (diff == 0 && p == q)) by (bit_vector);
        diff = d;
        i = i + 1;
    }
    if diff == 0 {
        assert(x@ =~= y@);
        true
    } else {
        false
    }
}

/// Whether a request that presented `provided` (if any key at all) may use
/// the admin API whose key is `current`.
pub fn is_authorized(provided: Option<&str>, current: &str) -> (res: bool)
    ensures
        res == match provided {
            Some(k) => k@ == current@,
            None => false,
        },
{
    match provided {
        Some(k) => constant_time_eq(k, current),
        None => false,
    }
}

/// A new admin or API key as requested: trimmed, and refused (`None`) when
/// nothing is left.
pub fn accepted_key(raw: &str) -> (res: Option<String>)
    ensures
        match res {
            Some(k) => k@ == trim(raw@) && k@.len() > 0,
            None => trim(raw@).len() == 0,
        },
{
    let cs = chars_of(raw);
    let t = trim_chars(cs.as_slice());
    if t.len() == 0 {
        None
    } else {
        Some(string_from_chars(t.as_slice()))
    }
}

/// Whether the `force` query parameter (if given) asks to bypass the update
/// cache: `true` or `1`.
pub fn force_requested(force: Option<&str>) -> (res: bool)
    ensures
        res == match force {
            Some(v) => v@ == "true"@ || v@ == "1"@,
            None => false,
        },
{
    match force {
        Some(v) => {
            let cs = chars_of(v);
            let t = chars_of("true");
            let one = chars_of("1");
            chars_equal(cs.as_slice(), t.as_slice()) || chars_equal(cs.as_slice(), one.as_slice())
        },
        None => false,
    }
}


/// The enabled flag a request asks for: the given boolean, or `true` when the
/// request carries none.
pub fn requested_enabled(value: Option<bool>) -> (res: bool)
    ensures
        res == match value {
            Some(b) => b,
            None => true,
        },
{
    match value {
        Some(b) => b,
        None => true,
    }
}

/// The key the admin API currently accepts; it can be replaced at run time.
pub struct AdminKey {
    key: String,
}

impl View for AdminKey {
    type V = Seq<char>;

    closed spec fn view(&self) -> Seq<char> {
        self.key@
    }
}

/// Why a new key is refused.
#[derive(Debug, Clone, Copy, PartialEq, Eq, Structural)]
pub enum KeyUpdateError {
    /// Nothing is left of the new key after trimming.
    EmptyKey,
}

/// The key after an update request with `raw`: the trimmed `raw`, or the old
/// key when nothing is left of it.
pub open spec fn key_after_update(key: Seq<char>, raw: Seq<char>) -> Seq<char> {
    if trim(raw).len() > 0 {
        trim(raw)
    } else {
        key
    }
}

/// Whether the key `key` lets in a request that presented `provided`.
pub open spec fn key_accepts(key: Seq<char>, provided: Option<Seq<char>>) -> bool {
    match provided {
        Some(k) => k == key,
        None => false,
    }
}

impl AdminKey {
    /// A key store holding `key`.
    pub fn new(key: &str) -> (res: Self)
        ensures
            res@ == key@,
    {
        AdminKey { key: String::from_str(key) }
    }

    /// The current key.
    pub fn current(&self) -> (res: String)
        ensures
            res@ == self@,
    {
        self.key.clone()
    }

    /// Replaces the key by the trimmed `raw`; refused, with the key left as
    /// it was, when nothing is left after trimming.
    pub fn update(&mut self, raw: &str) -> (res: Result<(), KeyUpdateError>)
        ensures
            final(self)@ == key_after_update(old(self)@, raw@),
            res is Ok <==> trim(raw@).len() > 0,
            res is Err ==> res == Err::<(), KeyUpdateError>(KeyUpdateError::EmptyKey),
    {
        match accepted_key(raw) {
            Some(k) => {
                self.key = k;
                Ok(())
            },
            None => Err(KeyUpdateError::EmptyKey),
        }
    }

    /// Whether a request that presented `provided` (if any) is let in.
    pub fn authorizes(&self, provided: Option<&str>) -> (res: bool)
        ensures
            res == key_accepts(
                self@,
                match provided {
                    Some(k) => Some(k@),
                    None => None,
                },
            ),
    {
        is_authorized(provided, self.key.as_str())
    }
}

/// After a successful key update with `raw`, a request presenting the trimmed
/// `raw` is let in, and one presenting the previous key is turned away
/// (unless the two are equal); a refused update changes nothing.
pub proof fn lemma_key_update_then_authorize(old_key: Seq<char>, raw: Seq<char>)
    ensures
        trim(raw).len() > 0 ==> key_accepts(key_after_update(old_key, raw), Some(trim(raw))),
        trim(raw).len() > 0 && old_key != trim(raw) ==> !key_accepts(
            key_after_update(old_key, raw),
            Some(old_key),
        ),
        trim(raw).len() == 0 ==> key_after_update(old_key, raw) == old_key,
{
}

} // verus!
