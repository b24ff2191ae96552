//! The settings of a gateway.
use vstd::prelude::*;

verus! {

/// What a gateway is told when it starts.
pub struct Config {
    pub gateway_id: u16,
    pub core_addr: String,
    pub http_addr: String,
}

/// Why the settings cannot be used.
#[derive(Debug, Clone, Copy, PartialEq, Eq, Structural)]
pub enum ConfigError {
    /// No gateway id is set.
    MissingGatewayId,
    /// The gateway id is not one.
    InvalidGatewayId,
}

impl ConfigError {
    /// What to tell the operator.
    pub fn message(&self) -> (text: String)
        ensures
            text@ == match self {
                ConfigError::MissingGatewayId => "GATEWAY_ID env var is required (u16)"@,
                ConfigError::InvalidGatewayId => "GATEWAY_ID must be a valid u16"@,
            },
    {
        match self {
            ConfigError::MissingGatewayId => "GATEWAY_ID env var is required (u16)".to_owned(),
            ConfigError::InvalidGatewayId => "GATEWAY_ID must be a valid u16".to_owned(),
        }
    }
}

/// Whether `c` is a decimal digit.
pub open spec fn is_digit(c: char) -> bool {
    '0' <= c <= '9'
}

/// The number that a sequence of digits stands for.
pub open spec fn decimal(digits: Seq<char>) -> nat
    decreases digits.len(),
{
    if digits.len() == 0 {
        0
    } else {
        (decimal(digits.drop_last()) * 10 + (digits.last() as int - '0' as int)) as nat
    }
}

/// `text` without a leading plus sign.
pub open spec fn unsigned(text: Seq<char>) -> Seq<char> {
    if text.len() > 0 && text[0] == '+' {
        text.skip(1)
    } else {
        text
    }
}

/// The number that `text` writes, if it is a gateway id: an optional plus sign
/// and then at least one digit and nothing else, no greater than the greatest
/// `u16`.
pub open spec fn gateway_id(text: Seq<char>) -> Option<u16> {
    let digits = unsigned(text);
    if digits.len() > 0 && (forall|i: int|
        0 <= i < digits.len() ==> is_digit(#[trigger] digits[i])) && decimal(digits) <= u16::MAX {
        Some(decimal(digits) as u16)
    } else {
        None
    }
}

/// More digits make no smaller number.
proof fn lemma_decimal_grows(digits: Seq<char>, n: int)
    requires
        0 <= n <= digits.len(),
        forall|i: int| 0 <= i < digits.len() ==> is_digit(#[trigger] digits[i]),
    ensures
        decimal(digits.take(n)) <= decimal(digits),
    decreases digits.len() - n,
{
    if n == digits.len() {
        assert(digits.take(n) =~= digits);
    } else {
        lemma_decimal_grows(digits, n + 1);
        assert(digits.take(n + 1).drop_last() =~= digits.take(n));
        assert(is_digit(digits[n]));
    }
}

/// The gateway id that `text` writes.
pub fn parse_gateway_id(text: &str) -> (id: Option<u16>)
    ensures
        id == gateway_id(text@),
{
    let len = text.unicode_len();
    let start: usize = if len > 0 && text.get_char(0) == '+' {
        1
    } else {
        0
    };
    let ghost digits = unsigned(text@);
    if start == len {
        return None;
    }
    let mut i: usize = start;
    let mut value: u32 = 0;
    assert(digits.take(0) =~= Seq::<char>::empty());
    while i < len
        invariant
            len == text@.len(),
            start <= i <= len,
            start == if text@.len() > 0 && text@[0] == '+' {
                1int
            } else {
                0
            },
            digits == unsigned(text@),
            digits.len() == len - start,
            forall|j: int| 0 <= j < i - start ==> is_digit(#[trigger] digits[j]),
            value == decimal(digits.take(i - start)),
            value <= u16::MAX,
        decreases len - i,
    {
        let c = text.get_char(i);
        assert(digits[i - start] == c);
        if c < '0' || c > '9' {
            assert(!is_digit(digits[i - start]));
            return None;
        }
        proof {
            let upto = digits.take(i - start + 1);
            assert(upto.drop_last() =~= digits.take(i - start));
            assert(upto.last() == c);
        }
        value = value * 10 + (c as u32 - '0' as u32);
        i = i + 1;
        if value > 65535 {
            proof {
                if forall|j: int| 0 <= j < digits.len() ==> is_digit(#[trigger] digits[j]) {
                    lemma_decimal_grows(digits, i - start);
                }
            }
            return None;
        }
    }
    assert(digits.take(i - start) =~= digits);
    Some(value as u16)
}

/// What a variable is set to.
pub open spec fn text_of(variable: Option<String>) -> Option<Seq<char>> {
    match variable {
        Some(text) => Some(text@),
        None => None,
    }
}

/// Whether `config`, the gateway id and the two addresses, is what the given
/// variables make.
pub open spec fn settles(
    gateway: Option<Seq<char>>,
    core_addr: Option<Seq<char>>,
    http_addr: Option<Seq<char>>,
    config: Result<(u16, Seq<char>, Seq<char>), ConfigError>,
) -> bool {
    match gateway {
        None => config == Err::<(u16, Seq<char>, Seq<char>), ConfigError>(
            ConfigError::MissingGatewayId,
        ),
        Some(text) => match gateway_id(text) {
            None => config == Err::<(u16, Seq<char>, Seq<char>), ConfigError>(
                ConfigError::InvalidGatewayId,
            ),
            Some(id) => {
                &&& config matches Ok((gateway_id, core, http))
                &&& gateway_id == id
                &&& core == match core_addr {
                    Some(addr) => addr,
                    None => "127.0.0.1:7000"@,
                }
                &&& http == match http_addr {
                    Some(addr) => addr,
                    None => "0.0.0.0:8080"@,
                }
            },
        },
    }
}

/// The settings that the given variables make; each is `None` where it is not
/// set. The gateway id is required, the addresses have defaults.
pub fn load_config(
    gateway: Option<String>,
    core_addr: Option<String>,
    http_addr: Option<String>,
) -> (config: Result<Config, ConfigError>)
    ensures
        match gateway {
            None => config == Err::<Config, ConfigError>(ConfigError::MissingGatewayId),
            Some(text) => match gateway_id(text@) {
                None => config == Err::<Config, ConfigError>(ConfigError::InvalidGatewayId),
                Some(id) => {
                    &&& config matches Ok(config)
                    &&& config.gateway_id == id
                    &&& config.core_addr@ == match core_addr {
                        Some(addr) => addr@,
                        None => "127.0.0.1:7000"@,
                    }
                    &&& config.http_addr@ == match http_addr {
                        Some(addr) => addr@,
                        None => "0.0.0.0:8080"@,
                    }
                },
            },
        },
        settles(
            text_of(gateway),
            text_of(core_addr),
            text_of(http_addr),
            match config {
                Ok(config) => Ok((config.gateway_id, config.core_addr@, config.http_addr@)),
                Err(error) => Err(error),
            },
        ),
{
    let text = match gateway {
        Some(text) => text,
        None => {
            return Err(ConfigError::MissingGatewayId);
        },
    };
    let gateway_id = match parse_gateway_id(text.as_str()) {
        Some(id) => id,
        None => {
            return Err(ConfigError::InvalidGatewayId);
        },
    };
    let core_addr = match core_addr {
        Some(addr) => addr,
        None => "127.0.0.1:7000".to_owned(),
    };
    let http_addr = match http_addr {
        Some(addr) => addr,
        None => "0.0.0.0:8080".to_owned(),
    };
    Ok(Config { gateway_id, core_addr, http_addr })
}

/// Gateway ids are read digit by digit: nothing is no id, one digit is itself,
/// with or without a plus sign, and one more digit makes ten times as much and
/// the digit, as long as that fits. What ends in no digit is no id, and what is
/// no id does not become one by what comes behind it.
pub proof fn gateway_id_is_read_by_digits(text: Seq<char>, c: char)
    ensures
        gateway_id(Seq::empty()) is None,
        !('0' <= c <= '9') ==> gateway_id(text.push(c)) is None,
        '0' <= c <= '9' && (text.len() == 0 || text == seq!['+']) ==> gateway_id(text.push(c))
            == Some((c as int - '0' as int) as u16),
        '0' <= c <= '9' && text.len() > 0 && text != seq!['+'] ==> {
            let shorter = gateway_id(text);
            let longer = gateway_id(text.push(c));
            &&& shorter is None ==> longer is None
            &&& shorter is Some ==> {
                let value = shorter->0 * 10 + (c as int - '0' as int);
                &&& longer is Some <==> value <= 65535
                &&& longer is Some ==> longer->0 == value
            }
        },
{
    let digits = unsigned(text);
    let longer = unsigned(text.push(c));
    if text.len() == 0 {
        if c != '+' {
            assert(longer =~= digits.push(c));
        }
    } else {
        assert(longer =~= digits.push(c));
        if digits.len() == 0 {
            assert(text =~= seq!['+']);
        }
    }
    if longer.len() > 0 {
        assert(longer =~= digits.push(c));
        assert(longer.last() == c);
        assert(longer.drop_last() =~= digits);
        assert(is_digit(c) && (forall|i: int|
            0 <= i < digits.len() ==> is_digit(#[trigger] digits[i])) <==> forall|i: int|
            0 <= i < longer.len() ==> is_digit(#[trigger] longer[i])) by {
            if forall|i: int| 0 <= i < longer.len() ==> is_digit(#[trigger] longer[i]) {
                assert(is_digit(longer[digits.len() as int]));
                assert forall|i: int| 0 <= i < digits.len() implies is_digit(
                    #[trigger] digits[i],
                ) by {
                    assert(is_digit(longer[i]));
                }
            }
        }
        if digits.len() == 0 {
            assert(decimal(digits) == 0);
        }
    }
}

/// A gateway starts exactly when its id is one, the errors tell a missing id from
/// a wrong one, and each address is the one that is set for it, untouched, or
/// its own default.
pub proof fn settings_are_what_was_set(
    gateway: Option<Seq<char>>,
    core_addr: Option<Seq<char>>,
    http_addr: Option<Seq<char>>,
    config: Result<(u16, Seq<char>, Seq<char>), ConfigError>,
)
    requires
        settles(gateway, core_addr, http_addr, config),
    ensures
        config is Ok <==> gateway is Some && gateway_id(gateway->0) is Some,
        config matches Err(error) ==> (error == ConfigError::MissingGatewayId <==> gateway is None),
        config matches Ok((id, core, http)) ==> {
            &&& gateway_id(gateway->0) == Some(id)
            &&& core_addr is Some ==> core == core_addr->0
            &&& core_addr is None ==> core == "127.0.0.1:7000"@
            &&& http_addr is Some ==> http == http_addr->0
            &&& http_addr is None ==> http == "0.0.0.0:8080"@
        },
{
}

} // verus!
