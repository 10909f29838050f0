use vstd::prelude::*;
use vstd::string::StringExecFns;

verus! {

/// The error taxonomy of the storage engine. Every fallible operation
/// reports one of these kinds; no expected condition panics.
#[derive(Debug, Clone, PartialEq, Eq)]
pub enum DbError {
    /// A schema declares the same column name twice; carries the name.
    DuplicateColumn(String),
    /// A schema declares more than one primary-key column; carries the table name.
    MultiplePrimaryKeys(String),
    /// An insertion names a different number of columns than it supplies values for.
    ArityMismatch { values: usize, columns: usize },
    /// `create_table` was called for a name that is already registered; carries the name.
    AlreadyExists(String),
    /// An operation referenced a table name that is not registered; carries the name.
    NoSuchTable(String),
    /// An index insertion collided with a key that is already present.
    DuplicateKey,
    /// The table has exhausted its page/slot address space.
    TableFull,
}

/// The character of one decimal digit.
pub open spec fn digit_char(d: nat) -> char {
    if d == 0 {
        '0'
    } else if d == 1 {
        '1'
    } else if d == 2 {
        '2'
    } else if d == 3 {
        '3'
    } else if d == 4 {
        '4'
    } else if d == 5 {
        '5'
    } else if d == 6 {
        '6'
    } else if d == 7 {
        '7'
    } else if d == 8 {
        '8'
    } else {
        '9'
    }
}

/// The decimal digits of a number, most significant first.
pub open spec fn spec_digits(n: nat) -> Seq<char>
    decreases n,
{
    if n < 10 {
        seq![digit_char(n)]
    } else {
        spec_digits(n / 10).push(digit_char(n % 10))
    }
}

fn digit_str(d: u64) -> (r: &'static str)
    requires
        d < 10,
    ensures
        r@ == seq![digit_char(d as nat)],
{
    if d == 0 {
        proof {
            reveal_strlit("0");
            assert("0"@ =~= seq![digit_char(d as nat)]);
        }
        "0"
    } else if d == 1 {
        proof {
            reveal_strlit("1");
            assert("1"@ =~= seq![digit_char(d as nat)]);
        }
        "1"
    } else if d == 2 {
        proof {
            reveal_strlit("2");
            assert("2"@ =~= seq![digit_char(d as nat)]);
        }
        "2"
    } else if d == 3 {
        proof {
            reveal_strlit("3");
            assert("3"@ =~= seq![digit_char(d as nat)]);
        }
        "3"
    } else if d == 4 {
        proof {
            reveal_strlit("4");
            assert("4"@ =~= seq![digit_char(d as nat)]);
        }
        "4"
    } else if d == 5 {
        proof {
            reveal_strlit("5");
            assert("5"@ =~= seq![digit_char(d as nat)]);
        }
        "5"
    } else if d == 6 {
        proof {
            reveal_strlit("6");
            assert("6"@ =~= seq![digit_char(d as nat)]);
        }
        "6"
    } else if d == 7 {
        proof {
            reveal_strlit("7");
            assert("7"@ =~= seq![digit_char(d as nat)]);
        }
        "7"
    } else if d == 8 {
        proof {
            reveal_strlit("8");
            assert("8"@ =~= seq![digit_char(d as nat)]);
        }
        "8"
    } else {
        proof {
            reveal_strlit("9");
            assert("9"@ =~= seq![digit_char(d as nat)]);
        }
        "9"
    }
}

/// Appends the decimal rendering of `n` to the string.
fn append_digits(n: u64, s: &mut String)
    ensures
        final(s)@ == old(s)@ + spec_digits(n as nat),
    decreases n,
{
    if n < 10 {
        s.append(digit_str(n));
        proof {
            assert(s@ =~= old(s)@ + spec_digits(n as nat));
        }
    } else {
        append_digits(n / 10, s);
        s.append(digit_str(n % 10));
        proof {
            assert(s@ =~= old(s)@ + spec_digits(n as nat));
        }
    }
}

impl DbError {
    /// The text of the error's message.
    pub open spec fn spec_message(self) -> Seq<char> {
        match self {
            DbError::DuplicateColumn(n) => "duplicate column name: "@ + n@,
            DbError::MultiplePrimaryKeys(t) => "table "@ + t@ + " has more than one primary key"@,
            DbError::ArityMismatch { values, columns } => spec_digits(values as nat)
                + " values for "@ + spec_digits(columns as nat) + " columns"@,
            DbError::AlreadyExists(n) => "table "@ + n@ + " already exists"@,
            DbError::NoSuchTable(n) => "no such table: "@ + n@,
            DbError::DuplicateKey => "duplicate key"@,
            DbError::TableFull => "table is full"@,
        }
    }

    /// A human-readable description of the error. The error type itself
    /// cannot carry `Display`, so callers format through this method.
    pub fn message(&self) -> (r: String)
        ensures
            r@ == self.spec_message(),
    {
        match self {
            DbError::DuplicateColumn(n) => {
                let s = "duplicate column name: ".to_owned();
                s.concat(n.as_str())
            },
            DbError::MultiplePrimaryKeys(t) => {
                let s = "table ".to_owned();
                let s = s.concat(t.as_str());
                s.concat(" has more than one primary key")
            },
            DbError::ArityMismatch { values, columns } => {
                let mut s = String::new();
                append_digits(*values as u64, &mut s);
                s.append(" values for ");
                append_digits(*columns as u64, &mut s);
                let r = s.concat(" columns");
                proof {
                    assert(r@ =~= spec_digits(*values as nat) + " values for "@ + spec_digits(
                        *columns as nat,
                    ) + " columns"@);
                }
                r
            },
            DbError::AlreadyExists(n) => {
                let s = "table ".to_owned();
                let s = s.concat(n.as_str());
                s.concat(" already exists")
            },
            DbError::NoSuchTable(n) => {
                let s = "no such table: ".to_owned();
                s.concat(n.as_str())
            },
            DbError::DuplicateKey => "duplicate key".to_owned(),
            DbError::TableFull => "table is full".to_owned(),
        }
    }
}

} // verus!
