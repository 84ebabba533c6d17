//! The configuration that the core consumes, with its defaults.

use vstd::prelude::*;
use vstd::string::*;
use std::time::Duration;
use crate::text::to_chars;

verus! {

/// The ports of the two listeners.
#[derive(Debug)]
pub struct ServerConfig {
    pub mllp_port: u16,
    pub web_port: u16,
}

/// The verbosity of the log.
#[derive(Debug)]
pub struct LoggingConfig {
    pub level: String,
}

/// The limits of the message store.
#[derive(Debug, Clone, Copy)]
pub struct StoreConfig {
    pub max_messages: usize,
    pub max_memory_mb: usize,
}

/// The limits of one MLLP connection.
#[derive(Debug, Clone, Copy)]
pub struct MllpConfig {
    pub max_message_size_mb: usize,
    pub read_timeout_secs: u64,
    pub write_timeout_secs: u64,
}

/// The whole configuration.
#[derive(Debug)]
pub struct Config {
    pub server: ServerConfig,
    pub logging: LoggingConfig,
    pub store: StoreConfig,
    pub mllp: MllpConfig,
}

/// The number of bytes in a mebibyte.
pub const BYTES_PER_MB: usize = 1048576;

/// The text of the default log level.
pub open spec fn default_level() -> Seq<char> {
    "info"@
}

impl Default for ServerConfig {
    fn default() -> (c: Self)
        ensures
            c.mllp_port == 2575,
            c.web_port == 8080,
    {
        ServerConfig { mllp_port: 2575, web_port: 8080 }
    }
}

impl Default for LoggingConfig {
    fn default() -> (c: Self)
        ensures
            c.level@ == default_level(),
    {
        LoggingConfig { level: "info".to_owned() }
    }
}

impl Default for StoreConfig {
    fn default() -> (c: Self)
        ensures
            c.max_messages == 10000,
            c.max_memory_mb == 512,
    {
        StoreConfig { max_messages: 10000, max_memory_mb: 512 }
    }
}

impl Default for MllpConfig {
    fn default() -> (c: Self)
        ensures
            c.max_message_size_mb == 10,
            c.read_timeout_secs == 60,
            c.write_timeout_secs == 30,
    {
        MllpConfig { max_message_size_mb: 10, read_timeout_secs: 60, write_timeout_secs: 30 }
    }
}

impl Default for Config {
    fn default() -> (c: Self)
        ensures
            c.server.mllp_port == 2575,
            c.server.web_port == 8080,
            c.logging.level@ == default_level(),
            c.store.max_messages == 10000,
            c.store.max_memory_mb == 512,
            c.mllp.max_message_size_mb == 10,
            c.mllp.read_timeout_secs == 60,
            c.mllp.write_timeout_secs == 30,
    {
        Config {
            server: ServerConfig::default(),
            logging: LoggingConfig::default(),
            store: StoreConfig::default(),
            mllp: MllpConfig::default(),
        }
    }
}

/// The number that a text of decimal digits stands for.
pub open spec fn digits_value(s: Seq<char>) -> nat
    decreases s.len(),
{
    if s.len() == 0 {
        0
    } else {
        digits_value(s.drop_last()) * 10 + (s.last() as nat - '0' as nat) as nat
    }
}

/// Whether `s` holds decimal digits only.
pub open spec fn all_digits(s: Seq<char>) -> bool {
    forall|i: int| 0 <= i < s.len() ==> '0' <= #[trigger] s[i] && s[i] <= '9'
}

/// The port that a text names: decimal digits, at least one, with a `+`
/// before them or not, that stand for a number up to 65535. Any other text
/// names none.
pub open spec fn port_of(s: Seq<char>) -> Option<u16> {
    if s.len() > 0 && s[0] == '+' {
        port_of_digits(s.drop_first())
    } else {
        port_of_digits(s)
    }
}

/// The port that a text without a sign names.
pub open spec fn port_of_digits(digits: Seq<char>) -> Option<u16> {
    if digits.len() > 0 && all_digits(digits) && digits_value(digits) <= 65535 {
        Some(digits_value(digits) as u16)
    } else {
        None
    }
}

/// A number never gets smaller by another digit.
pub proof fn lemma_digits_grow(s: Seq<char>, k: int)
    requires
        0 <= k <= s.len(),
        all_digits(s),
    ensures
        digits_value(s.take(k)) <= digits_value(s),
    decreases s.len() - k,
{
    if k == s.len() {
        assert(s.take(k) =~= s);
    } else {
        lemma_digits_grow(s, k + 1);
        assert(s.take(k + 1).drop_last() =~= s.take(k));
        assert(s.take(k + 1).last() == s[k]);
        crate::text::lemma_char_bounds(s[k]);
    }
}

/// Reads a port from a text.
pub fn parse_port(text: &str) -> (r: Option<u16>)
    ensures
        r == port_of(text@),
{
    let v = to_chars(text);
    let n: usize = v.len();
    let start: usize = if n > 0 && v[0] == '+' {
        1
    } else {
        0
    };
    let ghost digits = v@.subrange(start as int, n as int);
    proof {
        if start == 1 {
            assert(digits =~= v@.drop_first());
        } else {
            assert(digits =~= v@);
        }
    }
    if start == n {
        return None;
    }
    let mut value: u32 = 0;
    let mut i: usize = start;
    assert(digits.take(0) =~= Seq::<char>::empty());
    while i < n
        invariant
            start <= i <= n,
            n == v@.len(),
            digits == v@.subrange(start as int, n as int),
            port_of(text@) == port_of_digits(digits),
            all_digits(digits.take(i - start)),
            value == digits_value(digits.take(i - start)),
            value <= 65535,
        decreases n - i,
    {
        let c: char = v[i];
        proof {
            assert(digits.take(i - start + 1).drop_last() =~= digits.take(i - start));
            assert(digits.take(i - start + 1).last() == c);
        }
        if c < '0' || c > '9' {
            assert(digits[i - start] == c);
            return None;
        }
        let digit: u32 = c as u32 - '0' as u32;
        value = value * 10 + digit;
        proof {
            let next = digits.take(i - start + 1);
            assert forall|k: int| 0 <= k < next.len() implies '0' <= #[trigger] next[k] && next[k]
                <= '9' by {
                if k < i - start {
                    assert(next[k] == digits.take(i - start)[k]);
                }
            }
        }
        if value > 65535 {
            proof {
                let next = digits.take(i - start + 1);
                if all_digits(digits) {
                    lemma_digits_grow(digits, i - start + 1);
                }
            }
            return None;
        }
        i += 1;
    }
    assert(digits.take(n - start) =~= digits);
    Some(value as u16)
}

/// The span of `secs` whole seconds.
pub uninterp spec fn seconds(secs: u64) -> Duration;

/// The span of `secs` whole seconds.
///
/// Trusted: `Duration::from_secs` of the standard library; the contract only
/// gives its result a name.
#[verifier::external_body]
fn duration_of_secs(secs: u64) -> (d: Duration)
    ensures
        d == seconds(secs),
{
    Duration::from_secs(secs)
}

impl Config {
    /// The configuration with the overrides of the environment applied: a
    /// text that names a port replaces that port, a text that names none
    /// leaves it; a log level, where given, replaces the log level.
    pub fn with_overrides(
        self,
        mllp_port: Option<&str>,
        web_port: Option<&str>,
        log_level: Option<String>,
    ) -> (c: Self)
        ensures
            c.store == self.store,
            c.mllp == self.mllp,
            c.server.mllp_port == match mllp_port {
                Some(t) => match port_of(t@) {
                    Some(p) => p,
                    None => self.server.mllp_port,
                },
                None => self.server.mllp_port,
            },
            c.server.web_port == match web_port {
                Some(t) => match port_of(t@) {
                    Some(p) => p,
                    None => self.server.web_port,
                },
                None => self.server.web_port,
            },
            c.logging.level@ == match log_level {
                Some(l) => l@,
                None => self.logging.level@,
            },
    {
        let mut c = self;
        if let Some(t) = mllp_port {
            if let Some(p) = parse_port(t) {
                c.server.mllp_port = p;
            }
        }
        if let Some(t) = web_port {
            if let Some(p) = parse_port(t) {
                c.server.web_port = p;
            }
        }
        if let Some(l) = log_level {
            c.logging.level = l;
        }
        c
    }
}

impl StoreConfig {
    /// Whether the byte limit fits the machine's address space.
    pub open spec fn fits(&self) -> bool {
        self.max_memory_mb * BYTES_PER_MB <= usize::MAX
    }

    /// The byte limit of the store.
    pub fn max_memory_bytes(&self) -> (r: usize)
        requires
            self.fits(),
        ensures
            r == self.max_memory_mb * BYTES_PER_MB,
    {
        self.max_memory_mb * BYTES_PER_MB
    }
}

impl MllpConfig {
    /// Whether the size limit fits the machine's address space.
    pub open spec fn fits(&self) -> bool {
        self.max_message_size_mb * BYTES_PER_MB <= usize::MAX
    }

    /// The largest number of bytes that a connection may hold unframed.
    pub fn max_message_size(&self) -> (r: usize)
        requires
            self.fits(),
        ensures
            r == self.max_message_size_mb * BYTES_PER_MB,
    {
        self.max_message_size_mb * BYTES_PER_MB
    }

    /// How long one read may take.
    pub fn read_timeout(&self) -> (d: Duration)
        ensures
            d == seconds(self.read_timeout_secs),
    {
        duration_of_secs(self.read_timeout_secs)
    }

    /// How long one write may take.
    pub fn write_timeout(&self) -> (d: Duration)
        ensures
            d == seconds(self.write_timeout_secs),
    {
        duration_of_secs(self.write_timeout_secs)
    }
}

} // verus!
