//! The exchange's configuration and the database connection parameters built from it.

use vstd::prelude::*;

verus! {

/// Where the exchange listens and which database it uses.
pub struct Config {
    /// Address the server will listen on.
    pub server_addr: String,
    /// Server port.
    pub server_port: u16,
    /// Postgres DB server address. Must be valid IPv4 address.
    pub database_addr: String,
    /// Database user name.
    pub database_user: String,
    /// Database name.
    pub database_name: String,
    /// Database port.
    pub database_port: u16,
}

impl Default for Config {
    /// The defaults of the command line.
    fn default() -> (c: Config)
        ensures
            c.server_addr@ == "127.0.0.1"@,
            c.server_port == 8080,
            c.database_addr@ == "127.0.0.1"@,
            c.database_user@ == "postgres"@,
            c.database_name@ == "craes"@,
            c.database_port == 5432,
    {
        Config {
            server_addr: String::from_str("127.0.0.1"),
            server_port: 8080,
            database_addr: String::from_str("127.0.0.1"),
            database_user: String::from_str("postgres"),
            database_name: String::from_str("craes"),
            database_port: 5432,
        }
    }
}

/// The character of a decimal digit.
pub open spec fn digit_char(d: nat) -> char {
    (48 + d) as char
}

/// The decimal notation of a number, without leading zeros.
pub open spec fn decimal(n: nat) -> Seq<char>
    decreases n,
{
    if n < 10 {
        seq![digit_char(n)]
    } else {
        decimal(n / 10).push(digit_char(n % 10))
    }
}


/// The number that a string of decimal digits stands for.
pub open spec fn decimal_value(s: Seq<char>) -> int
    decreases s.len(),
{
    if s.len() == 0 {
        0
    } else {
        decimal_value(s.drop_last()) * 10 + (s.last() as int - 48)
    }
}

/// Whether every character is a decimal digit.
pub open spec fn all_digits(s: Seq<char>) -> bool {
    forall|i: int| 0 <= i < s.len() ==> 48 <= #[trigger] (s[i] as int) <= 57
}

/// The decimal notation of a number is made of digits, starts with a digit other
/// than zero unless the number is zero, and reads back as the number.
pub proof fn lemma_decimal_reads_back(n: nat)
    ensures
        decimal(n).len() > 0,
        all_digits(decimal(n)),
        decimal(n)[0] != '0' || n == 0,
        decimal_value(decimal(n)) == n,
    decreases n,
{
    if n < 10 {
        assert(decimal(n) =~= seq![digit_char(n)]);
        assert(digit_char(n) as int == 48 + n);
        assert(seq![digit_char(n)].drop_last() =~= Seq::<char>::empty());
        assert(decimal_value(Seq::<char>::empty()) == 0);
        assert(decimal_value(decimal(n)) == decimal_value(Seq::<char>::empty()) * 10 + (digit_char(n) as int - 48));
    } else {
        let q = n / 10;
        let r = n % 10;
        lemma_decimal_reads_back(q);
        let d = decimal(q);
        let s = d.push(digit_char(r));
        assert(s.drop_last() =~= d);
        assert(digit_char(r) as int == 48 + r);
        assert(s.last() == digit_char(r));
        assert(s[0] == d[0]);
        assert forall|i: int| 0 <= i < s.len() implies 48 <= #[trigger] (s[i] as int) <= 57 by {
            if i < d.len() {
                assert(s[i] == d[i]);
            }
        }
        assert(q * 10 + r == n) by (nonlinear_arith)
            requires q == n / 10, r == n % 10;
        assert(q > 0);
        assert(decimal(n) == s);
        assert(decimal_value(s) == decimal_value(d) * 10 + (digit_char(r) as int - 48));
    }
}

fn digit_str(d: u16) -> (s: &'static str)
    requires
        d < 10,
    ensures
        s@ == seq![digit_char(d as nat)],
{
    match d {
        0 => {
            proof { reveal_strlit("0"); }
            "0"
        },
        1 => {
            proof { reveal_strlit("1"); }
            "1"
        },
        2 => {
            proof { reveal_strlit("2"); }
            "2"
        },
        3 => {
            proof { reveal_strlit("3"); }
            "3"
        },
        4 => {
            proof { reveal_strlit("4"); }
            "4"
        },
        5 => {
            proof { reveal_strlit("5"); }
            "5"
        },
        6 => {
            proof { reveal_strlit("6"); }
            "6"
        },
        7 => {
            proof { reveal_strlit("7"); }
            "7"
        },
        8 => {
            proof { reveal_strlit("8"); }
            "8"
        },
        _ => {
            proof { reveal_strlit("9"); }
            "9"
        },
    }
}

/// Appends the decimal notation of `n`.
fn append_decimal(out: &mut String, n: u16)
    ensures
        final(out)@ == old(out)@ + decimal(n as nat),
    decreases n,
{
    if n < 10 {
        out.append(digit_str(n));
    } else {
        append_decimal(out, n / 10);
        out.append(digit_str(n % 10));
        assert(old(out)@ + decimal(n as nat) =~= old(out)@ + decimal((n / 10) as nat) + seq![digit_char((n % 10) as nat)]);
    }
}

/// The connection parameters of the database, as the Postgres client reads them.
pub open spec fn database_params(c: Config) -> Seq<char> {
    "host="@ + c.database_addr@ + " user="@ + c.database_user@ + " dbname="@ + c.database_name@
        + " port="@ + decimal(c.database_port as nat)
}

impl Config {
    /// The connection parameters of the database:
    /// `host=<addr> user=<user> dbname=<name> port=<port>`.
    pub fn database_params(&self) -> (params: String)
        ensures
            params@ == database_params(*self),
    {
        let mut params = String::from_str("host=");
        params.append(self.database_addr.as_str());
        params.append(" user=");
        params.append(self.database_user.as_str());
        params.append(" dbname=");
        params.append(self.database_name.as_str());
        params.append(" port=");
        append_decimal(&mut params, self.database_port);
        params
    }
}

} // verus!
