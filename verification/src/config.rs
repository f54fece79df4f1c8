//! Runtime settings and the small pieces of configuration handling that
//! are the library's own: credential indirection, the proxy list format,
//! and the truncation applied to notification bodies.
//!
//! Reading the settings file, the environment and the proxy file is I/O
//! and happens outside the library, which receives plain values.

use vstd::prelude::*;

verus! {

/// The scraper's settings, resolved and read-only after load.
#[derive(Clone)]
pub struct Settings {
    pub headless: bool,
    pub username: Vec<u8>,
    pub password: Vec<u8>,
    pub have_booking: bool,
    pub selenium_driver_url: Vec<u8>,
    pub selenium_element_timout: u64,
    pub selenium_element_polling: u64,
    pub retries: u64,
    pub scrape_refresh_time_min: u64,
    pub parallel_browsers: usize,
    pub scraping_enabled: bool,
    pub webhook_url: Option<Vec<u8>>,
    pub proxies: Vec<Vec<u8>>,
}

/// A credential written as `${NAME}` refers to the environment; anything
/// else is the literal value.
pub open spec fn env_ref_spec(s: Seq<u8>) -> Option<Seq<u8>> {
    if s.len() >= 3 && s[0] == 36 && s[1] == 123 && s.last() == 125 {
        Some(s.subrange(2, s.len() - 1))
    } else {
        None
    }
}

/// The environment-variable name a credential refers to, if it uses the
/// `${NAME}` indirection.
pub fn env_ref(value: &Vec<u8>) -> (r: Option<Vec<u8>>)
    ensures
        match r {
            Some(name) => env_ref_spec(value@) == Some(name@),
            None => env_ref_spec(value@) is None,
        },
{
    if value.len() < 3 || value[0] != 36 || value[1] != 123 || value[value.len() - 1] != 125 {
        return None;
    }
    let mut name: Vec<u8> = Vec::new();
    let mut i: usize = 2;
    let end = value.len() - 1;
    while i < end
        invariant
            2 <= i <= end,
            end == value@.len() - 1,
            name@ == value@.subrange(2, i as int),
        decreases end - i,
    {
        name.push(value[i]);
        assert(name@ =~= value@.subrange(2, i + 1 as int));
        i += 1;
    }
    Some(name)
}

/// The non-empty lines of a newline-delimited byte string, with `cur` the
/// line read so far.
pub open spec fn split_nonempty(s: Seq<u8>, cur: Seq<u8>) -> Seq<Seq<u8>>
    decreases s.len(),
{
    if s.len() == 0 {
        if cur.len() > 0 {
            seq![cur]
        } else {
            Seq::empty()
        }
    } else if s[0] == 10 {
        (if cur.len() > 0 {
            seq![cur]
        } else {
            Seq::empty()
        }) + split_nonempty(s.skip(1), Seq::empty())
    } else {
        split_nonempty(s.skip(1), cur.push(s[0]))
    }
}

/// The proxy endpoints of a proxy list file: one per line, empty lines
/// ignored.
pub open spec fn proxy_lines(s: Seq<u8>) -> Seq<Seq<u8>> {
    split_nonempty(s, Seq::empty())
}

/// Split a proxy list file into its non-empty lines.
pub fn parse_proxy_list(bytes: &Vec<u8>) -> (r: Vec<Vec<u8>>)
    ensures
        Seq::new(r@.len(), |i: int| r@[i]@) == proxy_lines(bytes@),
{
    let mut out: Vec<Vec<u8>> = Vec::new();
    let mut cur: Vec<u8> = Vec::new();
    let mut i: usize = 0;
    proof {
        assert(bytes@.skip(0) =~= bytes@);
        assert(Seq::new(out@.len(), |k: int| out@[k]@) =~= Seq::<Seq<u8>>::empty());
        assert(Seq::<Seq<u8>>::empty() + split_nonempty(bytes@, Seq::<u8>::empty())
            =~= split_nonempty(bytes@, Seq::<u8>::empty()));
    }
    while i < bytes.len()
        invariant
            i <= bytes.len(),
            proxy_lines(bytes@) == Seq::new(out@.len(), |k: int| out@[k]@) + split_nonempty(
                bytes@.skip(i as int),
                cur@,
            ),
        decreases bytes.len() - i,
    {
        let ghost built = Seq::new(out@.len(), |k: int| out@[k]@);
        let ghost rest = bytes@.skip(i as int);
        assert(rest[0] == bytes@[i as int]);
        assert(rest.skip(1) =~= bytes@.skip(i + 1 as int));
        let b = bytes[i];
        if b == 10 {
            if cur.len() > 0 {
                let line = cur;
                cur = Vec::new();
                out.push(line);
                proof {
                    assert(Seq::new(out@.len(), |k: int| out@[k]@) =~= built
                        + seq![out@.last()@]);
                    assert((built + seq![out@.last()@]) + split_nonempty(
                        bytes@.skip(i + 1 as int),
                        Seq::<u8>::empty(),
                    ) =~= built + (seq![out@.last()@] + split_nonempty(
                        bytes@.skip(i + 1 as int),
                        Seq::<u8>::empty(),
                    )));
                }
            } else {
                proof {
                    assert(Seq::<Seq<u8>>::empty() + split_nonempty(
                        bytes@.skip(i + 1 as int),
                        Seq::<u8>::empty(),
                    ) =~= split_nonempty(bytes@.skip(i + 1 as int), Seq::<u8>::empty()));
                }
                cur = Vec::new();
            }
        } else {
            cur.push(b);
        }
        i += 1;
    }
    proof {
        assert(bytes@.skip(bytes@.len() as int).len() == 0);
    }
    if cur.len() > 0 {
        let ghost built = Seq::new(out@.len(), |k: int| out@[k]@);
        out.push(cur);
        proof {
            assert(Seq::new(out@.len(), |k: int| out@[k]@) =~= built + seq![out@.last()@]);
        }
    } else {
        proof {
            let built = Seq::new(out@.len(), |k: int| out@[k]@);
            assert(built + Seq::<Seq<u8>>::empty() =~= built);
        }
    }
    out
}

/// Cut a notification body down to at most `max` bytes, as the block
/// alert does before sending; never panics, whatever the length.
pub fn truncate_body(body: &Vec<u8>, max: usize) -> (r: Vec<u8>)
    ensures
        body@.len() <= max ==> r@ == body@,
        body@.len() > max ==> r@ == body@.take(max as int),
{
    let mut r: Vec<u8> = Vec::new();
    let mut i: usize = 0;
    while i < body.len() && i < max
        invariant
            i <= body.len(),
            i <= max,
            r@ == body@.take(i as int),
        decreases body.len() - i,
    {
        r.push(body[i]);
        assert(r@ =~= body@.take(i + 1 as int));
        i += 1;
    }
    proof {
        if body@.len() <= max {
            assert(body@.take(body@.len() as int) =~= body@);
        }
    }
    r
}

} // verus!
