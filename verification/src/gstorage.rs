//! Configuration of the storage upload: the bucket, the target folder, the
//! upload interval and an optional token, taken from a list of settings.

use vstd::prelude::*;
use vstd::string::StringSliceAdditionalSpecFns;

verus! {

/// Seconds between uploads where the settings name no interval.
pub const DEFAULT_INTERVAL: u64 = 3600;

/// The settings of the storage upload.
#[derive(Clone, Debug, PartialEq, Eq)]
pub struct GStorageConfig {
    /// The settings as they were given, key and value.
    pub conf: Vec<(String, String)>,
    pub oauth_token: Option<String>,
    pub bucket_name: String,
    pub folder: String,
    /// Seconds between uploads.
    pub interval: u64,
}

/// The value of the first setting named `key`.
pub open spec fn lookup(conf: Seq<(String, String)>, key: Seq<char>) -> Option<Seq<char>>
    decreases conf.len(),
{
    if conf.len() == 0 {
        None
    } else if conf[0].0@ == key {
        Some(conf[0].1@)
    } else {
        lookup(conf.skip(1), key)
    }
}

/// Every byte is an ASCII digit.
pub open spec fn all_digits(b: Seq<u8>) -> bool {
    forall|i: int| 0 <= i < b.len() ==> 0x30 <= #[trigger] b[i] <= 0x39
}

/// The number that a string of ASCII digits spells in base ten.
pub open spec fn digits_value(b: Seq<u8>) -> int
    decreases b.len(),
{
    if b.len() == 0 {
        0
    } else {
        digits_value(b.drop_last()) * 10 + (b.last() - 0x30)
    }
}

/// The digits of a number written in UTF-8: the text itself, or what
/// follows a single leading plus sign.
pub open spec fn digits_of(text: Seq<u8>) -> Seq<u8> {
    if text.len() > 0 && text[0] == 0x2B {
        text.skip(1)
    } else {
        text
    }
}

/// The number that `text` spells: an optional plus sign, then at least one
/// digit and nothing but digits, the whole no larger than `u64::MAX`.
pub open spec fn decimal(text: Seq<u8>) -> Option<u64> {
    if digits_of(text).len() > 0 && all_digits(digits_of(text)) && digits_value(digits_of(text))
        <= u64::MAX {
        Some(digits_value(digits_of(text)) as u64)
    } else {
        None
    }
}

/// The upload interval that the settings ask for: the number that the
/// setting `interval` spells, the default where there is no such setting,
/// and nothing where the setting spells no number.
pub open spec fn interval_of(conf: Seq<(String, String)>) -> Option<u64> {
    match lookup(conf, "interval"@) {
        Some(text) => decimal(vstd::utf8::encode_utf8(text)),
        None => Some(DEFAULT_INTERVAL),
    }
}

/// The settings give what a configuration needs: a bucket name, and an
/// interval that is absent or a number.
pub open spec fn complete(conf: Seq<(String, String)>) -> bool {
    lookup(conf, "bucket-name"@) is Some && interval_of(conf) is Some
}

/// More digits never spell a smaller number.
pub proof fn lemma_digits_value_grows(b: Seq<u8>, k: int)
    requires
        all_digits(b),
        0 <= k <= b.len(),
    ensures
        0 <= digits_value(b.take(k)) <= digits_value(b),
    decreases b.len() - k,
{
    if k == b.len() {
        assert(b.take(k) =~= b);
        lemma_digits_value_nonnegative(b);
    } else {
        lemma_digits_value_grows(b, k + 1);
        assert(b.take(k + 1).drop_last() =~= b.take(k));
        assert(b.take(k + 1).last() == b[k]);
        lemma_digits_value_nonnegative(b.take(k));
    }
}

/// Digits spell no negative number.
pub proof fn lemma_digits_value_nonnegative(b: Seq<u8>)
    requires
        all_digits(b),
    ensures
        0 <= digits_value(b),
    decreases b.len(),
{
    if b.len() > 0 {
        assert forall|i: int| 0 <= i < b.drop_last().len() implies 0x30
            <= #[trigger] b.drop_last()[i] <= 0x39 by {
            assert(b.drop_last()[i] == b[i]);
        }
        lemma_digits_value_nonnegative(b.drop_last());
        assert(b.last() == b[b.len() - 1]);
    }
}

/// Reads a number in base ten: an optional plus sign, then digits only.
pub fn parse_decimal(text: &str) -> (res: Option<u64>)
    ensures
        res == decimal(text.spec_bytes()),
{
    let b = text.as_bytes();
    let n = b.len();
    let start: usize = if n > 0 && b[0] == 0x2B {
        1
    } else {
        0
    };
    let ghost digits = digits_of(b@);
    assert(digits =~= b@.skip(start as int));
    if start == n {
        return None;
    }
    let mut value: u64 = 0;
    let mut i: usize = start;
    assert(digits.take(0) =~= Seq::<u8>::empty());
    while i < n
        invariant
            start <= i <= n,
            n == b@.len(),
            b@ == text.spec_bytes(),
            digits == digits_of(b@),
            digits == b@.skip(start as int),
            all_digits(digits.take(i - start)),
            value == digits_value(digits.take(i - start)),
        decreases n - i,
    {
        let c = b[i];
        assert(digits[i - start] == c);
        if c < 0x30 || c > 0x39 {
            return None;
        }
        let d = (c - 0x30) as u64;
        proof {
            let next = digits.take(i - start + 1);
            assert(next.drop_last() =~= digits.take(i - start));
            assert(next.last() == c);
            assert forall|j: int| 0 <= j < next.len() implies 0x30 <= #[trigger] next[j]
                <= 0x39 by {
                if j < i - start {
                    assert(digits.take(i - start)[j] == next[j]);
                }
            }
            if all_digits(digits) {
                lemma_digits_value_grows(digits, i - start + 1);
            }
        }
        if value > (u64::MAX - d) / 10 {
            return None;
        }
        value = value * 10 + d;
        i = i + 1;
    }
    assert(digits.take(n - start) =~= digits);
    Some(value)
}

/// The value of the first setting named `key`.
pub fn find(conf: &Vec<(String, String)>, key: &str) -> (res: Option<String>)
    ensures
        match res {
            Some(value) => lookup(conf@, key@) == Some(value@),
            None => lookup(conf@, key@) is None,
        },
{
    let wanted = key.to_owned();
    let n = conf.len();
    let mut i: usize = 0;
    assert(conf@.skip(0) =~= conf@);
    while i < n
        invariant
            i <= n,
            n == conf.len(),
            wanted@ == key@,
            lookup(conf@, key@) == lookup(conf@.skip(i as int), key@),
        decreases n - i,
    {
        assert(conf@.skip(i as int)[0] == conf@[i as int]);
        assert(conf@.skip(i as int).skip(1) =~= conf@.skip(i + 1));
        if conf[i].0 == wanted {
            return Some(conf[i].1.clone());
        }
        i = i + 1;
    }
    None
}

impl GStorageConfig {
    /// The configuration that the settings describe.
    ///
    /// The token is the setting `oauth`, if there is one; the bucket is the
    /// setting `bucket-name`; the folder is the setting `folder`, and empty
    /// without one; the interval is the number that the setting `interval`
    /// spells, and an hour without one. The settings must name a bucket and
    /// no interval that is not a number.
    pub fn new(conf: Vec<(String, String)>) -> (config: GStorageConfig)
        requires
            complete(conf@),
        ensures
            config.conf == conf,
            match config.oauth_token {
                Some(token) => lookup(conf@, "oauth"@) == Some(token@),
                None => lookup(conf@, "oauth"@) is None,
            },
            lookup(conf@, "bucket-name"@) == Some(config.bucket_name@),
            match lookup(conf@, "folder"@) {
                Some(folder) => config.folder@ == folder,
                None => config.folder@ == Seq::<char>::empty(),
            },
            interval_of(conf@) == Some(config.interval),
    {
        let oauth_token = find(&conf, "oauth");
        let bucket_name = match find(&conf, "bucket-name") {
            Some(name) => name,
            None => String::new(),
        };
        let folder = match find(&conf, "folder") {
            Some(folder) => folder,
            None => String::new(),
        };
        let interval = match find(&conf, "interval") {
            Some(text) => match parse_decimal(text.as_str()) {
                Some(seconds) => seconds,
                None => DEFAULT_INTERVAL,
            },
            None => DEFAULT_INTERVAL,
        };
        GStorageConfig { conf, oauth_token, bucket_name, folder, interval }
    }

    /// The configuration that the settings describe, or nothing where they
    /// name no bucket or an interval that is not a number.
    pub fn from_settings(conf: Vec<(String, String)>) -> (res: Option<GStorageConfig>)
        ensures
            res is Some <==> complete(conf@),
            match res {
                Some(config) => {
                    &&& config.conf == conf
                    &&& lookup(conf@, "bucket-name"@) == Some(config.bucket_name@)
                    &&& interval_of(conf@) == Some(config.interval)
                    &&& match config.oauth_token {
                        Some(token) => lookup(conf@, "oauth"@) == Some(token@),
                        None => lookup(conf@, "oauth"@) is None,
                    }
                    &&& match lookup(conf@, "folder"@) {
                        Some(folder) => config.folder@ == folder,
                        None => config.folder@ == Seq::<char>::empty(),
                    }
                },
                None => true,
            },
    {
        if find(&conf, "bucket-name").is_none() {
            return None;
        }
        match find(&conf, "interval") {
            Some(text) => {
                if parse_decimal(text.as_str()).is_none() {
                    return None;
                }
            },
            None => {},
        }
        Some(GStorageConfig::new(conf))
    }
}

} // verus!
