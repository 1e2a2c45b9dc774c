//! Front-end decisions: address validation and the on-disk engine marker.

use vstd::prelude::*;

use crate::codec::hex_val;
use crate::naming::{all_digits, digits_val, lemma_digits_val_prefix};
use crate::strutil;

verus! {

/// A valid port string: decimal digits whose value lies in 1..=65535.
pub open spec fn valid_port(p: Seq<char>) -> bool {
    &&& p.len() > 0
    &&& all_digits(p)
    &&& 1 <= digits_val(p) <= 65535
}

/// A valid address: one single `:`, followed by a valid port.
pub open spec fn addr_valid(s: Seq<char>) -> bool {
    exists|i: int|
        {
            &&& 0 <= i < s.len()
            &&& #[trigger] s[i] == ':'
            &&& (forall|j: int| 0 <= j < s.len() && j != i ==> s[j] != ':')
            &&& valid_port(s.subrange(i + 1, s.len() as int))
        }
}

/// Check an `IP:PORT` argument: the text must hold exactly one `:` and the
/// port must be a number in 1..=65535.  The address part is not inspected.
/// A valid argument comes back unchanged; an invalid one is an error.
pub fn validate_addr(s: &str) -> (r: Result<String, String>)
    ensures
        r is Ok <==> addr_valid(s@),
        r matches Ok(t) ==> t@ == s@,
{
    let cs = strutil::chars_of(s);
    let n = cs.len();
    // find the single colon
    let mut colon: Option<usize> = None;
    let mut i: usize = 0;
    while i < n
        invariant
            0 <= i <= n == cs@.len(),
            cs@ == s@,
            match colon {
                Some(c) => c < i && s@[c as int] == ':' && forall|j: int|
                    0 <= j < i && j != c ==> s@[j] != ':',
                None => forall|j: int| 0 <= j < i ==> s@[j] != ':',
            },
        decreases n - i,
    {
        if cs[i] == ':' {
            match colon {
                Some(c) => {
                    proof {
                        assert forall|w: int|
                            !(0 <= w < s@.len() && s@[w] == ':' && (forall|j: int|
                                0 <= j < s@.len() && j != w ==> s@[j] != ':') && valid_port(
                                s@.subrange(w + 1, s@.len() as int),
                            )) by {
                            if w != c {
                                assert(s@[c as int] == ':');
                            } else {
                                assert(s@[i as int] == ':');
                            }
                        }
                    }
                    return Err("the address must hold exactly one ':'".to_owned());
                },
                None => {
                    colon = Some(i);
                },
            }
        }
        i = i + 1;
    }
    let c = match colon {
        None => {
            proof {
                assert forall|w: int|
                    !(0 <= w < s@.len() && s@[w] == ':' && (forall|j: int|
                        0 <= j < s@.len() && j != w ==> s@[j] != ':') && valid_port(
                        s@.subrange(w + 1, s@.len() as int),
                    )) by {}
            }
            return Err("the address must hold exactly one ':'".to_owned());
        },
        Some(c) => c,
    };
    let ghost port = s@.subrange(c + 1, s@.len() as int);
    // parse the port digits
    if c + 1 == n {
        proof {
            lemma_one_colon_witness(s@, c as int);
        }
        return Err("the port is empty".to_owned());
    }
    let mut v: u32 = 0;
    let mut j: usize = c + 1;
    while j < n
        invariant
            c + 1 <= j <= n == cs@.len(),
            cs@ == s@,
            0 <= c < n,
            s@[c as int] == ':',
            forall|jj: int| 0 <= jj < s@.len() && jj != c ==> s@[jj] != ':',
            port == s@.subrange(c + 1, s@.len() as int),
            all_digits(port.subrange(0, j - (c + 1))),
            v as int == digits_val(port.subrange(0, j - (c + 1))),
            v <= 65535,
        decreases n - j,
    {
        let d32 = crate::codec::hex_val_x(cs[j]);
        if d32 >= 10 {
            proof {
                assert(port[j - (c + 1)] == s@[j as int]);
                assert(!all_digits(port));
                lemma_one_colon_witness(s@, c as int);
            }
            return Err("the port must be a number".to_owned());
        }
        proof {
            assert(port.subrange(0, j - (c + 1) + 1).drop_last() =~= port.subrange(
                0,
                j - (c + 1),
            ));
            assert(port.subrange(0, j - (c + 1) + 1).last() == s@[j as int]);
        }
        v = v * 10 + d32;
        if v > 65535 {
            proof {
                if valid_port(port) {
                    lemma_digits_val_prefix(port, j - (c + 1) + 1);
                }
                lemma_one_colon_witness(s@, c as int);
            }
            return Err("the port must lie in 1..=65535".to_owned());
        }
        j = j + 1;
    }
    proof {
        assert(port.subrange(0, j - (c + 1)) =~= port);
    }
    if v == 0 {
        proof {
            lemma_one_colon_witness(s@, c as int);
        }
        return Err("the port must lie in 1..=65535".to_owned());
    }
    proof {
        assert(valid_port(port));
    }
    Ok(s.to_owned())
}

/// In a text with exactly one colon, that colon is the only possible
/// witness of a valid address.
proof fn lemma_one_colon_witness(s: Seq<char>, c: int)
    requires
        0 <= c < s.len(),
        s[c] == ':',
        forall|j: int| 0 <= j < s.len() && j != c ==> s[j] != ':',
        !valid_port(s.subrange(c + 1, s.len() as int)),
    ensures
        !addr_valid(s),
{
    assert forall|w: int|
        !(0 <= w < s.len() && s[w] == ':' && (forall|j: int|
            0 <= j < s.len() && j != w ==> s[j] != ':') && valid_port(
            s.subrange(w + 1, s.len() as int),
        )) by {
        if w == c {
        } else if 0 <= w < s.len() {
            assert(s[w] != ':');
        }
    }
}

/// The engine flavors the server can run.
#[derive(Debug, Clone, Copy, PartialEq, Eq, Structural)]
pub enum Engine {
    Kvs,
    Sled,
}

/// The marker text of an engine flavor: `kvs` or `sled`.
pub open spec fn engine_marker(e: Engine) -> Seq<char> {
    match e {
        Engine::Kvs => seq!['k', 'v', 's'],
        Engine::Sled => seq!['s', 'l', 'e', 'd'],
    }
}

/// The flavor's marker text, as written to the `engine` file.
pub fn engine_name(e: Engine) -> (r: String)
    ensures
        r@ == engine_marker(e),
{
    let mut v: Vec<char> = Vec::new();
    match e {
        Engine::Kvs => {
            v.push('k');
            v.push('v');
            v.push('s');
        },
        Engine::Sled => {
            v.push('s');
            v.push('l');
            v.push('e');
            v.push('d');
        },
    }
    proof {
        assert(v@ =~= engine_marker(e));
    }
    strutil::string_of(&v)
}

/// Parse an engine marker; any other text is no flavor.
pub fn parse_engine(s: &str) -> (r: Option<Engine>)
    ensures
        r == Some(Engine::Kvs) <==> s@ == engine_marker(Engine::Kvs),
        r == Some(Engine::Sled) <==> s@ == engine_marker(Engine::Sled),
{
    let cs = strutil::chars_of(s);
    if cs.len() == 3 && cs[0] == 'k' && cs[1] == 'v' && cs[2] == 's' {
        proof {
            assert(s@ =~= engine_marker(Engine::Kvs));
        }
        Some(Engine::Kvs)
    } else if cs.len() == 4 && cs[0] == 's' && cs[1] == 'l' && cs[2] == 'e' && cs[3] == 'd' {
        proof {
            assert(s@ =~= engine_marker(Engine::Sled));
        }
        Some(Engine::Sled)
    } else {
        proof {
            if s@ == engine_marker(Engine::Kvs) {
                assert(cs@[0] == 'k' && cs@[1] == 'v' && cs@[2] == 's');
            }
            if s@ == engine_marker(Engine::Sled) {
                assert(cs@[0] == 's' && cs@[1] == 'l' && cs@[2] == 'e' && cs@[3] == 'd');
            }
        }
        None
    }
}

/// May the server start with `selected` given the `engine` marker file's
/// text?  No marker, or one that parses to no flavor, lets any engine start;
/// a marker for another flavor refuses the start.
pub fn check_engine(selected: Engine, marker: Option<&String>) -> (r: bool)
    ensures
        r <==> match marker {
            None => true,
            Some(m) => (m@ == engine_marker(Engine::Kvs) ==> selected == Engine::Kvs) && (m@
                == engine_marker(Engine::Sled) ==> selected == Engine::Sled),
        },
{
    match marker {
        None => true,
        Some(m) => match parse_engine(m.as_str()) {
            None => true,
            Some(e) => {
                let same = match (e, selected) {
                    (Engine::Kvs, Engine::Kvs) => true,
                    (Engine::Sled, Engine::Sled) => true,
                    _ => false,
                };
                same
            },
        },
    }
}

} // verus!
