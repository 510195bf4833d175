//! Command-line argument handling for the web server binary: the grammar
//! itself, on plain strings. Reading the process arguments and exiting
//! belong to the surrounding binary.

use vstd::prelude::*;

verus! {

/// The server configuration the arguments select.
pub struct Config {
    /// Port to listen on.
    pub port: u16,
    /// Address to bind to.
    pub address: String,
    /// Whether permissive CORS headers are enabled.
    pub cors: bool,
}

/// Mathematical image of a `Config`.
pub ghost struct ConfigView {
    pub port: u16,
    pub address: Seq<char>,
    pub cors: bool,
}

impl View for Config {
    type V = ConfigView;

    open spec fn view(&self) -> ConfigView {
        ConfigView { port: self.port, address: self.address@, cors: self.cors }
    }
}

/// What a parse yields, at the specification level.
pub ghost enum ParseModel {
    /// Run with this configuration.
    Run(ConfigView),
    /// The help text was requested.
    Help,
    /// `--port` stood last, without a value.
    MissingPortValue,
    /// The value after `--port` is not a port number.
    InvalidPort(Seq<char>),
    /// `--address` stood last, without a value.
    MissingAddressValue,
    /// An option nothing here knows.
    UnknownOption(Seq<char>),
}

/// What a parse yields.
pub enum ParsedArgs {
    /// Run with this configuration.
    Run(Config),
    /// The help text was requested; the caller prints usage and exits.
    Help,
    /// `--port` stood last, without a value.
    MissingPortValue,
    /// The value after `--port` is not a port number.
    InvalidPort(String),
    /// `--address` stood last, without a value.
    MissingAddressValue,
    /// An option nothing here knows.
    UnknownOption(String),
}

impl View for ParsedArgs {
    type V = ParseModel;

    open spec fn view(&self) -> ParseModel {
        match self {
            ParsedArgs::Run(c) => ParseModel::Run(c@),
            ParsedArgs::Help => ParseModel::Help,
            ParsedArgs::MissingPortValue => ParseModel::MissingPortValue,
            ParsedArgs::InvalidPort(s) => ParseModel::InvalidPort(s@),
            ParsedArgs::MissingAddressValue => ParseModel::MissingAddressValue,
            ParsedArgs::UnknownOption(s) => ParseModel::UnknownOption(s@),
        }
    }
}

/// A decimal digit.
pub open spec fn is_digit(c: char) -> bool {
    48 <= c as u32 && c as u32 <= 57
}

/// Every character is a decimal digit.
pub open spec fn all_digits(s: Seq<char>) -> bool {
    forall|k: int| 0 <= k < s.len() ==> is_digit(#[trigger] s[k])
}

/// The number the digit string denotes.
pub open spec fn digits_val(s: Seq<char>) -> int
    decreases s.len(),
{
    if s.len() == 0 {
        0
    } else {
        digits_val(s.drop_last()) * 10 + (s.last() as u32 - 48)
    }
}

/// The digits of a number token: one optional leading '+' is allowed.
pub open spec fn port_digits(s: Seq<char>) -> Seq<char> {
    if s.len() > 0 && s[0] == '+' {
        s.drop_first()
    } else {
        s
    }
}

/// The token is a port number: an optional '+', then at least one digit,
/// denoting a value that fits in sixteen bits.
pub open spec fn valid_port(s: Seq<char>) -> bool {
    let d = port_digits(s);
    d.len() > 0 && all_digits(d) && digits_val(d) <= 65535
}

/// The port a valid token denotes.
pub open spec fn port_value(s: Seq<char>) -> int {
    digits_val(port_digits(s))
}

/// The denoted value never shrinks as digits are appended.
proof fn lemma_digits_prefix_le(d: Seq<char>, i: int)
    requires
        all_digits(d),
        0 <= i <= d.len(),
    ensures
        digits_val(d.subrange(0, i)) <= digits_val(d),
        digits_val(d) >= 0,
    decreases d.len(),
{
    if d.len() == 0 {
    } else {
        let head = d.drop_last();
        assert(all_digits(head)) by {
            assert forall|k: int| 0 <= k < head.len() implies is_digit(head[k]) by {
                assert(head[k] == d[k]);
            }
        }
        if i == d.len() {
            lemma_digits_prefix_le(head, head.len() as int);
            assert(d.subrange(0, i) =~= d);
            assert(d.last() as u32 >= 48);
        } else {
            lemma_digits_prefix_le(head, i);
            assert(head.subrange(0, i) =~= d.subrange(0, i));
            assert(is_digit(d.last()));
            assert(d.last() as u32 >= 48);
            assert(digits_val(head) * 10 >= digits_val(head)) by {
                lemma_digits_prefix_le(head, head.len() as int);
            }
        }
    }
}

/// Parses a port number: an optional '+', then decimal digits, fitting in
/// sixteen bits -- exactly the tokens `valid_port` admits.
pub fn parse_port(s: &str) -> (r: Option<u16>)
    ensures
        r is Some <==> valid_port(s@),
        r is Some ==> r->0 == port_value(s@),
{
    let n = s.unicode_len();
    let mut i: usize = 0;
    if n > 0 && s.get_char(0) == '+' {
        i = 1;
    }
    let ghost d = port_digits(s@);
    assert(d =~= s@.subrange(i as int, n as int));
    if i >= n {
        assert(d.len() == 0);
        return None;
    }
    let start = i;
    let mut val: u32 = 0;
    while i < n
        invariant
            start <= i <= n,
            n == s@.len(),
            d == port_digits(s@),
            d == s@.subrange(start as int, n as int),
            d.len() > 0,
            all_digits(d.subrange(0, i - start)),
            val == digits_val(d.subrange(0, i - start)),
            val <= 65535,
        decreases n - i,
    {
        let c = s.get_char(i);
        let u = c as u32;
        if u < 48 || u > 57 {
            proof {
                assert(d[i - start] == c);
                assert(!all_digits(d)) by {
                    if all_digits(d) {
                        assert(is_digit(d[i - start]));
                    }
                }
                assert(!valid_port(s@));
            }
            return None;
        }
        let ghost pre = d.subrange(0, i - start);
        let ghost nxt = d.subrange(0, i + 1 - start);
        proof {
            assert(nxt.drop_last() =~= pre);
            assert(nxt.last() == c);
            assert(digits_val(nxt) == digits_val(pre) * 10 + (c as u32 - 48));
        }
        val = val * 10 + (u - 48);
        i += 1;
        if val > 65535 {
            proof {
                assert(val == digits_val(nxt));
                if all_digits(d) && digits_val(d) <= 65535 {
                    lemma_digits_prefix_le(d, i - start);
                    assert(nxt == d.subrange(0, i - start));
                    assert(false);
                }
                assert(!valid_port(s@));
            }
            return None;
        }
    }
    assert(d.subrange(0, i - start) =~= d);
    assert(valid_port(s@));
    Some(val as u16)
}

/// The configuration the arguments start from: port 8080 on the loopback
/// address, CORS off.
pub open spec fn default_config() -> ConfigView {
    ConfigView { port: 8080, address: "127.0.0.1"@, cors: false }
}

/// The parse outcome from position `i` on, with everything before already
/// folded into `acc`. Options may repeat; the last occurrence wins.
pub open spec fn parse_model_from(args: Seq<Seq<char>>, i: int, acc: ConfigView) -> ParseModel
    decreases args.len() - i,
{
    if i < 0 || i >= args.len() {
        ParseModel::Run(acc)
    } else {
        let a = args[i];
        if a == "--help"@ {
            ParseModel::Help
        } else if a == "--port"@ {
            if i + 1 >= args.len() {
                ParseModel::MissingPortValue
            } else if !valid_port(args[i + 1]) {
                ParseModel::InvalidPort(args[i + 1])
            } else {
                parse_model_from(args, i + 2, ConfigView {
                    port: port_value(args[i + 1]) as u16,
                    address: acc.address,
                    cors: acc.cors,
                })
            }
        } else if a == "--address"@ {
            if i + 1 >= args.len() {
                ParseModel::MissingAddressValue
            } else {
                parse_model_from(args, i + 2, ConfigView {
                    port: acc.port,
                    address: args[i + 1],
                    cors: acc.cors,
                })
            }
        } else if a == "--cors"@ {
            parse_model_from(args, i + 1, ConfigView {
                port: acc.port,
                address: acc.address,
                cors: true,
            })
        } else {
            ParseModel::UnknownOption(a)
        }
    }
}

/// The views of the argument strings.
pub open spec fn arg_views(args: Seq<String>) -> Seq<Seq<char>> {
    args.map_values(|s: String| s@)
}

/// The outcome of parsing a full argument vector; the first entry is the
/// program name and is skipped.
pub open spec fn parse_model(args: Seq<Seq<char>>) -> ParseModel {
    parse_model_from(args, 1, default_config())
}

/// The two strings are equal.
fn string_is(a: &String, lit: &str) -> (r: bool)
    ensures
        r == (a@ == lit@),
{
    let s: String = lit.to_owned();
    *a == s
}

/// Parses the argument vector (program name first) into a configuration,
/// a help request, or the first offending argument.
pub fn parse_args(args: &Vec<String>) -> (r: ParsedArgs)
    ensures
        r@ == parse_model(arg_views(args@)),
{
    let ghost sv = arg_views(args@);
    let mut config = Config {
        port: 8080,
        address: String::from_str("127.0.0.1"),
        cors: false,
    };
    assert(config@ == default_config());
    let mut i: usize = 1;
    while i < args.len()
        invariant
            1 <= i,
            sv == arg_views(args@),
            parse_model(sv) == parse_model_from(sv, i as int, config@),
        decreases args.len() - i,
    {
        assert(sv[i as int] == args@[i as int]@);
        if string_is(&args[i], "--help") {
            return ParsedArgs::Help;
        } else if string_is(&args[i], "--port") {
            if i + 1 >= args.len() {
                return ParsedArgs::MissingPortValue;
            }
            assert(sv[i as int + 1] == args@[i as int + 1]@);
            match parse_port(args[i + 1].as_str()) {
                None => {
                    return ParsedArgs::InvalidPort(args[i + 1].clone());
                }
                Some(p) => {
                    config.port = p;
                    i = i + 2;
                }
            }
        } else if string_is(&args[i], "--address") {
            if i + 1 >= args.len() {
                return ParsedArgs::MissingAddressValue;
            }
            assert(sv[i as int + 1] == args@[i as int + 1]@);
            config.address = args[i + 1].clone();
            i = i + 2;
        } else if string_is(&args[i], "--cors") {
            config.cors = true;
            i = i + 1;
        } else {
            return ParsedArgs::UnknownOption(args[i].clone());
        }
    }
    ParsedArgs::Run(config)
}

} // verus!
