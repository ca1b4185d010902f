use vstd::prelude::*;
use vstd::string::*;
use crate::symbol::{Symbol, SymbolDb};

verus! {

/// The digit `d` as text.
pub open spec fn digit_text(d: nat) -> Seq<char> {
    if d == 0 {
        "0"@
    } else if d == 1 {
        "1"@
    } else if d == 2 {
        "2"@
    } else if d == 3 {
        "3"@
    } else if d == 4 {
        "4"@
    } else if d == 5 {
        "5"@
    } else if d == 6 {
        "6"@
    } else if d == 7 {
        "7"@
    } else if d == 8 {
        "8"@
    } else {
        "9"@
    }
}

/// The number `n` in decimal digits, without leading zeros.
pub open spec fn decimal_text(n: nat) -> Seq<char>
    decreases n,
{
    if n < 10 {
        digit_text(n)
    } else {
        decimal_text(n / 10) + digit_text(n % 10)
    }
}

/// The digit `d` as text.
fn digit(d: usize) -> (s: &'static str)
    requires
        d < 10,
    ensures
        s@ == digit_text(d as nat),
{
    if d == 0 {
        "0"
    } else if d == 1 {
        "1"
    } else if d == 2 {
        "2"
    } else if d == 3 {
        "3"
    } else if d == 4 {
        "4"
    } else if d == 5 {
        "5"
    } else if d == 6 {
        "6"
    } else if d == 7 {
        "7"
    } else if d == 8 {
        "8"
    } else {
        "9"
    }
}

/// The number `n` in decimal digits.
pub fn decimal(n: usize) -> (s: String)
    ensures
        s@ == decimal_text(n as nat),
    decreases n,
{
    if n < 10 {
        String::from_str(digit(n))
    } else {
        let mut s = decimal(n / 10);
        s.append(digit(n % 10));
        s
    }
}

/// The label of `s` in `db`.
pub open spec fn label_of(db: SymbolDb, s: Symbol) -> Seq<char> {
    db@[s.id() as int].label
}

/// The labels of the first `k` symbols of `syms`, with two blanks between neighbours.
pub open spec fn joined(db: SymbolDb, syms: Seq<Symbol>, k: nat) -> Seq<char>
    decreases k,
{
    if k == 0 {
        Seq::<char>::empty()
    } else if k == 1 {
        label_of(db, syms[0])
    } else {
        joined(db, syms, (k - 1) as nat) + "  "@ + label_of(db, syms[k - 1])
    }
}

/// The labels of `syms`, with two blanks between neighbours.
pub fn join_labels(db: &SymbolDb, syms: &Vec<Symbol>) -> (s: String)
    requires
        db.wf(),
        forall|j: int| 0 <= j < syms@.len() ==> db.contains(#[trigger] syms@[j]),
    ensures
        s@ == joined(*db, syms@, syms@.len()),
{
    let mut out = String::from_str("");
    let mut k: usize = 0;
    proof {
        reveal_strlit("");
        assert(out@ =~= joined(*db, syms@, 0));
    }
    while k < syms.len()
        invariant
            k <= syms@.len(),
            db.wf(),
            forall|j: int| 0 <= j < syms@.len() ==> db.contains(#[trigger] syms@[j]),
            out@ == joined(*db, syms@, k as nat),
        decreases syms@.len() - k,
    {
        if k > 0 {
            out.append("  ");
        }
        match db.label(&syms[k]) {
            Some(l) => {
                out.append(l.as_str());
            },
            None => {},
        }
        proof {
            if k == 0 {
                assert(out@ =~= label_of(*db, syms@[0]));
            }
        }
        k += 1;
    }
    out
}

} // verus!
