//! The appliance's protocol, short of the network: the key and address of a
//! device, the requests that carry an encrypted path, and the decoding of
//! each kind of response body.

use vstd::prelude::*;
use vstd::string::StringSliceAdditionalSpecFns;
use vstd::utf8::encode_utf8;
use crate::envelope::{
    KEY_LEN,
    IV_LEN,
    base64_bytes,
    decrypt,
    derive_key,
    derived_key,
    encrypt,
    envelope_of,
    opened,
};
use crate::error::Error;
use crate::file_ref::{FilePath, files_sorted, path_of};
use crate::index::{flatten_index, index_files, json_index, parse_index, strings_view};

verus! {

/// The list of strings in a JSON document that is an array of strings.
pub uninterp spec fn json_strings(b: Seq<u8>) -> Option<Seq<Seq<char>>>;

/// Relies on `serde_json::from_slice` into `Vec<String>`.
#[verifier::external_body]
fn parse_strings(b: &[u8]) -> (r: Option<Vec<String>>)
    ensures
        match r {
            Some(v) => json_strings(b@) == Some(strings_view(v@)),
            None => json_strings(b@) is None,
        },
{
    serde_json::from_slice::<Vec<String>>(b).ok()
}

/// The pieces of `s` between newline characters.
pub open spec fn pieces(s: Seq<char>) -> Seq<Seq<char>>
    decreases s.len(),
{
    if s.len() == 0 {
        seq![Seq::empty()]
    } else {
        let p = pieces(s.drop_last());
        if s.last() == '\n' {
            p.push(Seq::empty())
        } else {
            p.update(p.len() - 1, p.last().push(s.last()))
        }
    }
}

/// A line without the carriage return that may end it.
pub open spec fn strip_cr(l: Seq<char>) -> Seq<char> {
    if l.len() > 0 && l.last() == '\r' {
        l.drop_last()
    } else {
        l
    }
}

/// Line `i` of `pieces` is the first non-empty one that does not open.
pub open spec fn first_failing_line(key: Seq<u8>, pieces: Seq<Seq<char>>, i: int) -> bool {
    &&& strip_cr(pieces[i]).len() > 0
    &&& opened(key, strip_cr(pieces[i])) is None
    &&& forall|j: int|
        0 <= j < i && strip_cr(#[trigger] pieces[j]).len() > 0 ==> opened(key, strip_cr(pieces[j])) is Some
}

/// The non-empty lines of a file body.
pub open spec fn file_lines(s: Seq<char>) -> Seq<Seq<char>> {
    pieces(s).map_values(|l: Seq<char>| strip_cr(l)).filter(|l: Seq<char>| l.len() > 0)
}

proof fn lemma_pieces_nonempty(s: Seq<char>)
    ensures
        pieces(s).len() >= 1,
    decreases s.len(),
{
    if s.len() > 0 {
        lemma_pieces_nonempty(s.drop_last());
    }
}

/// Splits a body at its newline characters.
pub fn split_pieces(s: &str) -> (r: Vec<String>)
    ensures
        strings_view(r@) == pieces(s@),
{
    let n = s.unicode_len();
    let mut out: Vec<String> = Vec::new();
    let mut start: usize = 0;
    let mut i: usize = 0;
    proof {
        assert(s@.take(0) =~= Seq::<char>::empty());
        assert(s@.subrange(0, 0) =~= Seq::<char>::empty());
        assert(strings_view(out@) =~= Seq::<Seq<char>>::empty());
    }
    while i < n
        invariant
            n == s@.len(),
            start <= i <= n,
            pieces(s@.take(i as int)) == strings_view(out@).push(s@.subrange(start as int, i as int)),
        decreases n - i,
    {
        let c = s.get_char(i);
        proof {
            assert(s@.take(i + 1).drop_last() == s@.take(i as int));
            assert(s@.take(i + 1).last() == c);
        }
        if c == '\n' {
            let piece = String::from_str(s.substring_char(start, i));
            let ghost before = out@;
            out.push(piece);
            start = i + 1;
            proof {
                assert(strings_view(out@) =~= strings_view(before).push(piece@));
                assert(s@.subrange(start as int, i + 1) =~= Seq::<char>::empty());
            }
        } else {
            proof {
                lemma_pieces_nonempty(s@.take(i as int));
                assert(s@.subrange(start as int, i + 1) =~= s@.subrange(start as int, i as int).push(c));
                assert(pieces(s@.take(i + 1)) =~= strings_view(out@).push(s@.subrange(start as int, i + 1)));
            }
        }
        i = i + 1;
    }
    let last = String::from_str(s.substring_char(start, n));
    let ghost before = out@;
    out.push(last);
    proof {
        assert(s@.take(n as int) == s@);
        assert(strings_view(out@) =~= strings_view(before).push(last@));
    }
    out
}


/// The identity a device reports when asked to blink.
#[derive(Debug, Clone)]
pub struct DeviceId {
    pub id: String,
}

/// A device's answer to a ping.
#[derive(Debug, Clone)]
pub struct Ping {
    pub id: String,
}

/// A device's status: fine, or still warming up the named gas sensors.
#[derive(Debug, Clone)]
pub enum Status {
    Ready(String),
    WarmUp { co: Option<String>, no2: Option<String>, o3: Option<String>, so2: Option<String> },
}

impl Status {
    /// Whether some sensor is still warming up.
    pub fn is_warming_up(&self) -> (r: bool)
        ensures
            r == (self is WarmUp),
    {
        match self {
            Status::Ready(_) => false,
            Status::WarmUp { .. } => true,
        }
    }
}

/// Shortest spacing of two live readings, in milliseconds.
pub const LIVE_INTERVAL_MILLIS: u64 = 1500;

/// How long to wait before the next reading so that readings are at least
/// `interval` apart, given the time since the last one.
pub fn poll_delay(elapsed: u64, interval: u64) -> (r: u64)
    ensures
        r == if elapsed < interval {
            interval - elapsed
        } else {
            0
        },
        elapsed + r >= interval,
{
    if elapsed < interval {
        interval - elapsed
    } else {
        0
    }
}

/// A device: the key derived from its password and the address prefix of
/// its requests.
pub struct AirQ {
    key: Vec<u8>,
    prefix: String,
}

impl AirQ {
    #[verifier::type_invariant]
    spec fn inv(&self) -> bool {
        self.key@.len() == KEY_LEN
    }

    /// The cipher key.
    pub closed spec fn key(&self) -> Seq<u8> {
        self.key@
    }

    /// The start of every request address: `http://` and the domain.
    pub closed spec fn prefix(&self) -> Seq<char> {
        self.prefix@
    }

    pub fn new(domain: &str, password: &str) -> (r: AirQ)
        ensures
            r.key() == derived_key(password.spec_bytes()),
            r.prefix() == "http://"@ + domain@,
    {
        let secret = password.as_bytes_vec();
        let key = derive_key(secret.as_slice());
        let prefix = String::from_str("http://").concat(domain);
        AirQ { key, prefix }
    }

    /// The full address of a request path.
    pub fn url(&self, path: &str) -> (r: String)
        ensures
            r@ == self.prefix() + path@,
    {
        self.prefix.clone().concat(path)
    }

    /// A request that carries `path` encrypted: `endpoint?request=` and the
    /// envelope of the path's bytes under a fresh IV.
    pub fn encrypted_request(&self, endpoint: &str, path: &str) -> (r: String)
        ensures
            exists|iv: Seq<u8>|
                iv.len() == IV_LEN && r@ == endpoint@ + "?request="@ + envelope_of(
                    self.key(),
                    iv,
                    path.spec_bytes(),
                ) && opened(self.key(), envelope_of(self.key(), iv, path.spec_bytes())) == Some(
                    path.spec_bytes(),
                ),
    {
        proof {
            use_type_invariant(self);
        }
        let bytes = path.as_bytes_vec();
        let sealed = encrypt(&self.key, &bytes);
        String::from_str(endpoint).concat("?request=").concat(sealed.as_str())
    }

    /// The request for one level of the directory tree.
    pub fn dir_request(&self, path: &str) -> (r: String)
        ensures
            exists|iv: Seq<u8>|
                iv.len() == IV_LEN && r@ == "/dir"@ + "?request="@ + envelope_of(
                    self.key(),
                    iv,
                    path.spec_bytes(),
                ) && opened(self.key(), envelope_of(self.key(), iv, path.spec_bytes())) == Some(
                    path.spec_bytes(),
                ),
    {
        self.encrypted_request("/dir", path)
    }

    /// The request for the records of a file.
    pub fn file_request(&self, file: &FilePath) -> (r: String)
        ensures
            exists|iv: Seq<u8>|
                iv.len() == IV_LEN && r@ == "/file"@ + "?request="@ + envelope_of(
                    self.key(),
                    iv,
                    encode_utf8(path_of(*file)),
                ) && opened(self.key(), envelope_of(self.key(), iv, encode_utf8(path_of(*file))))
                    == Some(encode_utf8(path_of(*file))),
    {
        let p = file.path();
        self.encrypted_request("/file", p.as_str())
    }

    /// The request for the records of a file, re-encrypted by the device.
    pub fn file_recrypt_request(&self, file: &FilePath) -> (r: String)
        ensures
            exists|iv: Seq<u8>|
                iv.len() == IV_LEN && r@ == "/file_recrypt"@ + "?request="@ + envelope_of(
                    self.key(),
                    iv,
                    encode_utf8(path_of(*file)),
                ) && opened(self.key(), envelope_of(self.key(), iv, encode_utf8(path_of(*file))))
                    == Some(encode_utf8(path_of(*file))),
    {
        let p = file.path();
        self.encrypted_request("/file_recrypt", p.as_str())
    }

    /// Opens an envelope sent by the device.
    pub fn decrypt(&self, text: &str) -> (r: Result<Vec<u8>, Error>)
        ensures
            match r {
                Ok(p) => opened(self.key(), text@) == Some(p@),
                Err(Error::Base64Error(_)) => crate::envelope::base64_bytes(text@) is None,
                Err(Error::DecryptionError) => crate::envelope::base64_bytes(text@) is Some
                    && opened(self.key(), text@) is None,
                Err(_) => false,
            },
    {
        proof {
            use_type_invariant(self);
        }
        decrypt(&self.key, text)
    }

    /// Decodes a response that holds a list of strings: a directory
    /// listing, or the device log.
    pub fn decode_listing(&self, text: &str) -> (r: Result<Vec<String>, Error>)
        ensures
            match r {
                Ok(v) => exists|p: Seq<u8>|
                    opened(self.key(), text@) == Some(p) && json_strings(p) == Some(
                        strings_view(v@),
                    ),
                Err(Error::JsonError) => exists|p: Seq<u8>|
                    opened(self.key(), text@) == Some(p) && json_strings(p) is None,
                Err(Error::Base64Error(_)) => base64_bytes(text@) is None,
                Err(Error::DecryptionError) => base64_bytes(text@) is Some && opened(
                    self.key(),
                    text@,
                ) is None,
                Err(Error::MalformedEntry(_)) => false,
            },
    {
        let plain = self.decrypt(text)?;
        match parse_strings(plain.as_slice()) {
            Some(v) => Ok(v),
            None => Err(Error::JsonError),
        }
    }


    /// Decodes a file body: each non-empty line, without a final carriage
    /// return, is an envelope of its own, and one line that does not open
    /// fails the whole body.
    pub fn decode_file(&self, body: &str) -> (r: Result<Vec<Vec<u8>>, Error>)
        ensures
            match r {
                Ok(v) => v@.len() == file_lines(body@).len() && forall|i: int|
                    0 <= i < v@.len() ==> opened(self.key(), #[trigger] file_lines(body@)[i]) == Some(
                        v@[i]@,
                    ),
                Err(e) => exists|i: int|
                    0 <= i < pieces(body@).len() && first_failing_line(
                        self.key(),
                        pieces(body@),
                        i,
                    ) && match e {
                        Error::Base64Error(_) => base64_bytes(strip_cr(pieces(body@)[i])) is None,
                        Error::DecryptionError => base64_bytes(strip_cr(pieces(body@)[i])) is Some
                            && opened(self.key(), strip_cr(pieces(body@)[i])) is None,
                        _ => false,
                    },
            },
    {
        let parts = split_pieces(body);
        let ghost all = pieces(body@);
        let ghost stripped = all.map_values(|l: Seq<char>| strip_cr(l));
        let ghost pred = |l: Seq<char>| l.len() > 0;
        let mut out: Vec<Vec<u8>> = Vec::new();
        let mut i: usize = 0;
        while i < parts.len()
            invariant
                i <= parts@.len(),
                all == pieces(body@),
                strings_view(parts@) == all,
                stripped == all.map_values(|l: Seq<char>| strip_cr(l)),
                pred == (|l: Seq<char>| l.len() > 0),
                out@.len() == stripped.take(i as int).filter(pred).len(),
                forall|k: int|
                    0 <= k < out@.len() ==> opened(self.key(), #[trigger] stripped.take(i as int).filter(pred)[k])
                        == Some(out@[k]@),
                forall|j: int|
                    0 <= j < i && strip_cr(#[trigger] all[j]).len() > 0 ==> opened(
                        self.key(),
                        strip_cr(all[j]),
                    ) is Some,
            decreases parts@.len() - i,
        {
            let part = parts[i].as_str();
            let len = part.unicode_len();
            let line = if len > 0 && part.get_char(len - 1) == '\r' {
                part.substring_char(0, len - 1)
            } else {
                part.substring_char(0, len)
            };
            proof {
                assert(part@ == all[i as int]);
                assert(line@ =~= strip_cr(all[i as int]));
                assert(stripped.take(i + 1) == stripped.take(i as int).push(line@));
                stripped.take(i as int).lemma_filter_push(line@, pred);
            }
            if line.unicode_len() > 0 {
                match self.decrypt(line) {
                    Ok(p) => {
                        out.push(p);
                    },
                    Err(e) => {
                        assert(first_failing_line(self.key(), all, i as int));
                        return Err(e);
                    },
                }
            }
            i = i + 1;
        }
        proof {
            assert(stripped.take(parts@.len() as int) == stripped);
        }
        Ok(out)
    }

    /// Decodes the flat index into the files it lists, in ascending order.
    pub fn decode_index(&self, text: &str) -> (r: Result<Vec<FilePath>, Error>)
        ensures
            match r {
                Ok(v) => exists|p: Seq<u8>, t|
                    opened(self.key(), text@) == Some(p) && json_index(p) == Some(t)
                        && index_files(t) is Some && files_sorted(v@) && v@.to_multiset()
                        == index_files(t)->0.to_multiset(),
                Err(Error::JsonError) => exists|p: Seq<u8>|
                    opened(self.key(), text@) == Some(p) && json_index(p) is None,
                Err(Error::MalformedEntry(_)) => exists|p: Seq<u8>, t|
                    opened(self.key(), text@) == Some(p) && json_index(p) == Some(t)
                        && index_files(t) is None,
                Err(Error::Base64Error(_)) => base64_bytes(text@) is None,
                Err(Error::DecryptionError) => base64_bytes(text@) is Some && opened(
                    self.key(),
                    text@,
                ) is None,
            },
    {
        let plain = self.decrypt(text)?;
        match parse_index(plain.as_slice()) {
            Some(tree) => flatten_index(&tree),
            None => Err(Error::JsonError),
        }
    }
}

} // verus!
