use chrono::{Datelike, Timelike};
use vstd::prelude::*;
use vstd::string::StringExecFns;

use crate::config::{ConfigError, Sink};
use crate::sink::{PartitionBuffers, append_spec, opt_vec_view, pending_of};
use crate::text::{padded, push_padded, push_signed, signed_decimal};

verus! {

/// Local wall-clock time, as calendar fields.
#[derive(Clone, Copy, Debug, PartialEq, Eq, Structural)]
pub struct WallClock {
    pub year: i32,
    pub month: u32,
    pub day: u32,
    pub hour: u32,
    pub minute: u32,
    pub second: u32,
}

/// Relies on `chrono::Local::now`, read through chrono's `Datelike` and
/// `Timelike` accessors, within the ranges their documentation gives.
#[verifier::external_body]
fn local_now() -> (t: WallClock)
    ensures
        clock_in_range(t),
{
    let now = chrono::Local::now();
    WallClock {
        year: now.year(),
        month: now.month(),
        day: now.day(),
        hour: now.hour(),
        minute: now.minute(),
        second: now.second(),
    }
}

pub open spec fn is_lower_hex(c: char) -> bool {
    ('0' <= c && c <= '9') || ('a' <= c && c <= 'f')
}

/// A version-4 UUID in lowercase hyphenated form: hex digits in groups of
/// 8-4-4-4-12, the version digit `4` and a variant digit of `8`, `9`, `a`
/// or `b`.
pub open spec fn is_uuid_v4_text(s: Seq<char>) -> bool {
    &&& s.len() == 36
    &&& forall|i: int|
        0 <= i < 36 ==> if i == 8 || i == 13 || i == 18 || i == 23 {
            #[trigger] s[i] == '-'
        } else {
            is_lower_hex(s[i])
        }
    &&& s[14] == '4'
    &&& (s[19] == '8' || s[19] == '9' || s[19] == 'a' || s[19] == 'b')
}

/// A wall-clock reading within the ranges chrono's accessors give.
pub open spec fn clock_in_range(t: WallClock) -> bool {
    &&& 1 <= t.month <= 12
    &&& 1 <= t.day <= 31
    &&& t.hour <= 23
    &&& t.minute <= 59
    &&& t.second <= 59
}

/// Relies on `uuid::Uuid::new_v4` and its `Display` (`LowerHex` of the
/// hyphenated form): random bits with the version nibble set to 4 and the
/// variant bits to `10`, written as lowercase hex in groups of 8-4-4-4-12.
#[verifier::external_body]
fn new_object_id() -> (r: String)
    ensures
        is_uuid_v4_text(r@),
{
    uuid::Uuid::new_v4().to_string()
}

/// The year as chrono's `%Y` writes it: zero-padded to four digits, with
/// a sign outside the years 0 to 9999.
pub open spec fn year_text(y: int) -> Seq<char> {
    if y < 0 {
        seq!['-'] + padded((-y) as nat, 4)
    } else if y > 9999 {
        seq!['+'] + padded(y as nat, 4)
    } else {
        padded(y as nat, 4)
    }
}

/// `{prefix}/{partition}/{YYYY}/{MM}/{DD}/{HH}/{mm}/{ss}/{id}`
pub open spec fn object_key_spec(prefix: Seq<char>, partition: i32, t: WallClock, id: Seq<char>) -> Seq<
    char,
> {
    prefix + seq!['/'] + signed_decimal(partition as int) + seq!['/'] + year_text(t.year as int)
        + seq!['/'] + padded(t.month as nat, 2) + seq!['/'] + padded(t.day as nat, 2) + seq!['/']
        + padded(t.hour as nat, 2) + seq!['/'] + padded(t.minute as nat, 2) + seq!['/'] + padded(
        t.second as nat,
        2,
    ) + seq!['/'] + id
}

fn push_slash(s: &mut String)
    ensures
        final(s)@ == old(s)@ + seq!['/'],
{
    s.append("/");
    proof {
        reveal_strlit("/");
    }
}

/// The object key under which a flushed buffer is stored.
pub fn object_key(prefix: &str, partition: i32, t: &WallClock, id: &str) -> (r: String)
    ensures
        r@ == object_key_spec(prefix@, partition, *t, id@),
{
    let mut s = String::from_str(prefix);
    push_slash(&mut s);
    push_signed(&mut s, partition as i64);
    push_slash(&mut s);
    if t.year < 0 {
        s.append("-");
        proof {
            reveal_strlit("-");
        }
        push_padded(&mut s, (0i64 - t.year as i64) as u64, 4);
    } else if t.year > 9999 {
        s.append("+");
        proof {
            reveal_strlit("+");
        }
        push_padded(&mut s, t.year as u64, 4);
    } else {
        push_padded(&mut s, t.year as u64, 4);
    }
    push_slash(&mut s);
    push_padded(&mut s, t.month as u64, 2);
    push_slash(&mut s);
    push_padded(&mut s, t.day as u64, 2);
    push_slash(&mut s);
    push_padded(&mut s, t.hour as u64, 2);
    push_slash(&mut s);
    push_padded(&mut s, t.minute as u64, 2);
    push_slash(&mut s);
    push_padded(&mut s, t.second as u64, 2);
    push_slash(&mut s);
    s.append(id);
    assert(s@ =~= object_key_spec(prefix@, partition, *t, id@));
    s
}

/// A detached buffer, ready to be uploaded under `key`.
pub struct FlushRequest {
    pub partition: i32,
    pub key: String,
    pub body: Vec<u8>,
}

/// The object-store sink: where flushed buffers go, and the buffers.
pub struct BufferedSink {
    bucket: String,
    key_prefix: String,
    buffers: PartitionBuffers,
}

impl BufferedSink {
    pub closed spec fn bucket_spec(&self) -> Seq<char> {
        self.bucket@
    }

    pub closed spec fn key_prefix_spec(&self) -> Seq<char> {
        self.key_prefix@
    }

    pub closed spec fn file_size_spec(&self) -> nat {
        self.buffers.file_size_spec()
    }

    pub closed spec fn buffers_view(&self) -> Map<i32, Seq<u8>> {
        self.buffers.buffers_view()
    }

    /// A sink for an `S3` configuration; a disabled sink is refused.
    pub fn new(cfg: &Sink) -> (r: Result<BufferedSink, ConfigError>)
        ensures
            match *cfg {
                Sink::Disabled => r == Err::<BufferedSink, ConfigError>(ConfigError::SinkDisabled),
                Sink::S3 { bucket, key_prefix, file_size, .. } => r matches Ok(s) && s.bucket_spec()
                    == bucket@ && s.key_prefix_spec() == key_prefix@ && s.file_size_spec()
                    == file_size && s.buffers_view() == Map::<i32, Seq<u8>>::empty(),
            },
    {
        match cfg {
            Sink::Disabled => Err(ConfigError::SinkDisabled),
            Sink::S3 { bucket, key_prefix, file_size, .. } => Ok(
                BufferedSink {
                    bucket: bucket.clone(),
                    key_prefix: key_prefix.clone(),
                    buffers: PartitionBuffers::new(*file_size),
                },
            ),
        }
    }

    pub fn bucket(&self) -> (r: &str)
        ensures
            r@ == self.bucket_spec(),
    {
        self.bucket.as_str()
    }

    pub fn pending(&self, partition: i32) -> (r: Vec<u8>)
        ensures
            r@ == pending_of(self.buffers_view(), partition),
    {
        self.buffers.pending(partition)
    }

    /// Appends `body` to `partition`'s buffer; when that buffer is due, it
    /// is detached and handed back with the key to store it under, named
    /// from the wall clock and a fresh identifier.
    pub fn write(&mut self, partition: i32, body: &[u8]) -> (r: Option<FlushRequest>)
        ensures
            final(self).bucket_spec() == old(self).bucket_spec(),
            final(self).key_prefix_spec() == old(self).key_prefix_spec(),
            final(self).file_size_spec() == old(self).file_size_spec(),
            ({
                let (f, rest) = append_spec(
                    pending_of(old(self).buffers_view(), partition),
                    body@,
                    old(self).file_size_spec() as int,
                );
                &&& final(self).buffers_view() == old(self).buffers_view().insert(partition, rest)
                &&& r is Some <==> f is Some
                &&& r matches Some(req) ==> {
                    &&& Some(req.body@) == f
                    &&& req.partition == partition
                    &&& exists|t: WallClock, id: Seq<char>|
                        clock_in_range(t) && is_uuid_v4_text(id) && #[trigger] object_key_spec(
                            old(self).key_prefix_spec(),
                            partition,
                            t,
                            id,
                        ) == req.key@
                }
            }),
    {
        match self.buffers.append(partition, body) {
            None => None,
            Some(buf) => {
                let t = local_now();
                let id = new_object_id();
                let key = object_key(self.key_prefix.as_str(), partition, &t, id.as_str());
                assert(object_key_spec(self.key_prefix_spec(), partition, t, id@) == key@);
                assert(opt_vec_view(Some(buf)) == Some(buf@));
                Some(FlushRequest { partition, key, body: buf })
            },
        }
    }
}

} // verus!
