//! Service configuration: the settings every subsystem reads, and the
//! parsing of the comma-separated list values they arrive in.
use vstd::prelude::*;
use vstd::string::{StrSliceExecFns, StringExecFns};

use crate::error::{AppError, STATUS_INTERNAL_SERVER_ERROR};
use crate::strutil::{str_eq, trim_ascii, trimmed};

verus! {

/// Everything the service is configured with. Values come from the
/// environment; reading them is the caller's concern.
#[derive(Clone, Debug)]
pub struct Config {
    pub bind_addr: String,
    pub public_base_url: String,
    pub db_path: String,
    pub static_dir: String,
    pub cors_allow_any: bool,
    pub cors_origins: Vec<String>,
    pub allowed_push_hosts: Vec<String>,
    pub webhook_read_timeout_ms: u64,
    pub vapid_public_key: String,
    pub vapid_private_key: String,
    pub vapid_subject: String,
    pub max_payload_bytes: usize,
    pub chunk_data_bytes: usize,
    pub chunk_delay_ms: u64,
    pub subscription_ttl_days: i64,
    pub rate_limit_per_minute: u32,
    pub queue_max_bytes: u64,
    pub queue_workers: usize,
}

impl Config {
    /// Guardrail checks for configurations that cannot work at all.
    pub fn validate(&self) -> (r: Result<(), AppError>)
        ensures
            match r {
                Ok(_) => self.chunk_data_bytes > 0 && self.max_payload_bytes > 0,
                Err(e) => e.status == STATUS_INTERNAL_SERVER_ERROR && ((self.chunk_data_bytes == 0
                    && e.message@ == ("CHUNK_DATA_BYTES must be > 0")@) || (self.chunk_data_bytes
                    > 0 && self.max_payload_bytes == 0 && e.message@ == (
                "MAX_PAYLOAD_BYTES must be > 0")@)),
            },
    {
        if self.chunk_data_bytes == 0 {
            return Err(AppError::new(STATUS_INTERNAL_SERVER_ERROR, "CHUNK_DATA_BYTES must be > 0"));
        }
        if self.max_payload_bytes == 0 {
            return Err(
                AppError::new(STATUS_INTERNAL_SERVER_ERROR, "MAX_PAYLOAD_BYTES must be > 0"),
            );
        }
        Ok(())
    }
}

/// The position of the first comma, or the length when there is none.
pub open spec fn first_comma(s: Seq<char>) -> nat
    decreases s.len(),
{
    if s.len() == 0 {
        0
    } else if s[0] == ',' {
        0
    } else {
        1 + first_comma(s.skip(1))
    }
}

/// The comma-separated segments of `s`, commas excluded; a string with
/// no comma is one segment, possibly empty.
pub open spec fn split_commas(s: Seq<char>) -> Seq<Seq<char>>
    decreases s.len(),
{
    let i = first_comma(s);
    if i >= s.len() {
        seq![s]
    } else {
        seq![s.take(i as int)] + split_commas(s.skip(i as int + 1))
    }
}

/// Each segment trimmed of ASCII whitespace.
pub open spec fn trim_map(s: Seq<Seq<char>>) -> Seq<Seq<char>> {
    s.map_values(|p: Seq<char>| trimmed(p))
}

/// The non-empty segments.
pub open spec fn drop_empty(s: Seq<Seq<char>>) -> Seq<Seq<char>> {
    s.filter(|p: Seq<char>| p.len() > 0)
}

/// What a comma-separated list denotes: its segments, each trimmed of
/// ASCII whitespace, the empty ones dropped.
pub open spec fn parse_list_spec(s: Seq<char>) -> Seq<Seq<char>> {
    drop_empty(trim_map(split_commas(s)))
}

proof fn lemma_trim_map_push(s: Seq<Seq<char>>, x: Seq<char>)
    ensures
        trim_map(s.push(x)) =~~= trim_map(s).push(trimmed(x)),
{
}

proof fn lemma_drop_empty_push(s: Seq<Seq<char>>, x: Seq<char>)
    ensures
        drop_empty(s.push(x)) == if x.len() > 0 {
            drop_empty(s).push(x)
        } else {
            drop_empty(s)
        },
{
    assert(s.push(x).drop_last() =~~= s);
    assert(s.push(x).last() == x);
    reveal(Seq::filter);
}

proof fn lemma_first_comma_at(s: Seq<char>, i: int)
    requires
        0 <= i <= s.len(),
        forall|j: int| 0 <= j < i ==> s[j] != ',',
        i < s.len() ==> s[i] == ',',
    ensures
        first_comma(s) == i,
    decreases i,
{
    if i == 0 {
        if s.len() > 0 && s[0] != ',' {
            assert(i < s.len());
        }
    } else {
        assert(s[0] != ',');
        lemma_first_comma_at(s.skip(1), i - 1);
    }
}

/// The views of a parsed list.
pub open spec fn string_views(v: Seq<String>) -> Seq<Seq<char>> {
    v.map_values(|s: String| s@)
}

/// Split a comma-separated list into its non-empty trimmed items.
pub fn parse_list(value: &str) -> (r: Vec<String>)
    ensures
        string_views(r@) == parse_list_spec(value@),
{
    let n = value.unicode_len();
    let mut r: Vec<String> = Vec::new();
    let mut seg_start: usize = 0;
    let mut i: usize = 0;
    let ghost s = value@;
    let ghost done: Seq<Seq<char>> = Seq::empty();
    let ghost mut done_v = done;
    proof {
        assert(s.skip(0) =~= s);
    }
    while i < n
        invariant
            n == s.len(),
            s == value@,
            seg_start <= i <= n,
            split_commas(s) =~~= done_v + split_commas(s.skip(seg_start as int)),
            string_views(r@) =~~= drop_empty(trim_map(done_v)),
            forall|j: int| seg_start <= j < i ==> s[j] != ',',
        decreases n - i,
    {
        let c = char_at(value, i);
        if c == ',' {
            let piece = value.substring_char(seg_start, i);
            let item = trim_ascii(piece);
            let ghost seg = s.subrange(seg_start as int, i as int);
            proof {
                let t = s.skip(seg_start as int);
                assert(forall|j: int| 0 <= j < i - seg_start ==> t[j] != ',');
                assert(t[i - seg_start] == ',');
                lemma_first_comma_at(t, i - seg_start);
                assert(t.take(i - seg_start) =~= seg);
                assert(t.skip(i - seg_start + 1) =~= s.skip(i as int + 1));
                assert(split_commas(t) =~~= seq![seg] + split_commas(s.skip(i as int + 1)));
            }
            push_if_nonempty(&mut r, item, Ghost(done_v), Ghost(seg));
            proof {
                done_v = done_v.push(seg);
                assert(split_commas(s) =~~= done_v + split_commas(s.skip(i as int + 1)));
            }
            i = i + 1;
            seg_start = i;
        } else {
            i = i + 1;
        }
    }
    let piece = value.substring_char(seg_start, n);
    let item = trim_ascii(piece);
    let ghost seg = s.subrange(seg_start as int, n as int);
    proof {
        let t = s.skip(seg_start as int);
        assert(forall|j: int| 0 <= j < t.len() ==> t[j] != ',');
        lemma_first_comma_at(t, t.len() as int);
        assert(t =~= seg);
        assert(split_commas(t) =~~= seq![seg]);
    }
    push_if_nonempty(&mut r, item, Ghost(done_v), Ghost(seg));
    proof {
        done_v = done_v.push(seg);
        assert(split_commas(s) =~~= done_v);
        assert(string_views(r@) =~~= drop_empty(trim_map(done_v)));
        assert(string_views(r@) =~~= parse_list_spec(value@));
    }
    r
}

/// Append the trimmed segment when it is non-empty, keeping the filtered
/// view in step.
fn push_if_nonempty(r: &mut Vec<String>, item: &str, done: Ghost<Seq<Seq<char>>>, seg: Ghost<
    Seq<char>,
>)
    requires
        item@ == trimmed(seg@),
        string_views(old(r)@) =~~= drop_empty(trim_map(done@)),
    ensures
        string_views(final(r)@) =~~= drop_empty(trim_map(done@.push(seg@))),
{
    proof {
        lemma_trim_map_push(done@, seg@);
        lemma_drop_empty_push(trim_map(done@), trimmed(seg@));
        assert(trim_map(done@.push(seg@)) =~~= trim_map(done@).push(trimmed(seg@)));
        assert(drop_empty(trim_map(done@).push(trimmed(seg@))) == if trimmed(seg@).len() > 0 {
            drop_empty(trim_map(done@)).push(trimmed(seg@))
        } else {
            drop_empty(trim_map(done@))
        });
    }
    if !item.is_empty() {
        let owned = item.to_owned();
        r.push(owned);
        proof {
            assert(string_views(r@) =~~= string_views(old(r)@).push(item@));
        }
    }
}

fn char_at(s: &str, i: usize) -> (c: char)
    requires
        i < s@.len(),
    ensures
        c == s@[i as int],
{
    s.get_char(i)
}

/// Interpret a CORS origin list: a `*` entry allows any origin and
/// empties the explicit list.
pub fn parse_cors_origins(value: &str) -> (r: (bool, Vec<String>))
    ensures
        ({
            let l = parse_list_spec(value@);
            if exists|i: int| 0 <= i < l.len() && #[trigger] l[i] == ("*")@ {
                r.0 == true && r.1@.len() == 0
            } else {
                r.0 == false && string_views(r.1@) == l
            }
        }),
{
    let origins = parse_list(value);
    let n = origins.len();
    let mut i: usize = 0;
    while i < n
        invariant
            n == origins@.len(),
            i <= n,
            string_views(origins@) == parse_list_spec(value@),
            forall|j: int| 0 <= j < i ==> #[trigger] string_views(origins@)[j] != ("*")@,
        decreases n - i,
    {
        if str_eq(origins[i].as_str(), "*") {
            proof {
                assert(string_views(origins@)[i as int] == ("*")@);
            }
            return (true, Vec::new());
        }
        i = i + 1;
    }
    (false, origins)
}

} // verus!
