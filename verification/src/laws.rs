//! What holds of balances across mints and transfers, stated over the record
//! maps that `MockToken::mint` and `MockToken::transfer` produce.
use vstd::prelude::*;

use crate::ledger::{balance_in, minted, transferred};

verus! {

/// A recorded balance reads back as written, and recording one holder's
/// balance leaves every other balance as it was.
pub proof fn law_read_after_record(m: Map<Seq<u8>, int>, holder: Seq<u8>, amount: int, other: Seq<u8>)
    requires
        other != holder,
    ensures
        balance_in(m.insert(holder, amount), holder) == amount,
        balance_in(m.insert(holder, amount), other) == balance_in(m, other),
{
}

/// A mint credits its holder with the amount and leaves every other balance
/// as it was.
pub proof fn law_mint_credits_holder(m: Map<Seq<u8>, int>, to: Seq<u8>, amount: int, other: Seq<u8>)
    requires
        other != to,
    ensures
        balance_in(minted(m, to, amount), to) == balance_in(m, to) + amount,
        balance_in(minted(m, to, amount), other) == balance_in(m, other),
{
}

/// Two mints to one holder give every holder the balance that one mint of
/// their sum gives.
pub proof fn law_mints_add_up(m: Map<Seq<u8>, int>, to: Seq<u8>, a: int, b: int, k: Seq<u8>)
    ensures
        balance_in(minted(minted(m, to, a), to, b), k) == balance_in(minted(m, to, a + b), k),
{
}

/// Mints to two holders give the same balances in either order.
pub proof fn law_mints_commute(m: Map<Seq<u8>, int>, x: Seq<u8>, a: int, y: Seq<u8>, b: int, k: Seq<u8>)
    ensures
        balance_in(minted(minted(m, x, a), y, b), k) == balance_in(minted(minted(m, y, b), x, a), k),
{
}

/// A transfer between two holders debits the sender by the amount, credits
/// the receiver by the amount, and leaves every other balance as it was.
pub proof fn law_transfer_moves_amount(
    m: Map<Seq<u8>, int>,
    from: Seq<u8>,
    to: Seq<u8>,
    amount: int,
    other: Seq<u8>,
)
    requires
        from != to,
        other != from,
        other != to,
    ensures
        balance_in(transferred(m, from, to, amount), from) == balance_in(m, from) - amount,
        balance_in(transferred(m, from, to, amount), to) == balance_in(m, to) + amount,
        balance_in(transferred(m, from, to, amount), other) == balance_in(m, other),
{
}

/// A transfer from a holder to itself leaves it richer by the amount: its
/// balance is read once for both sides, and the credit is written last.
pub proof fn law_self_transfer_credits(m: Map<Seq<u8>, int>, holder: Seq<u8>, amount: int)
    ensures
        balance_in(transferred(m, holder, holder, amount), holder) == balance_in(m, holder) + amount,
{
}

/// A transfer between two holders followed by the same transfer back leaves
/// every balance as it was.
pub proof fn law_transfer_round_trip(
    m: Map<Seq<u8>, int>,
    from: Seq<u8>,
    to: Seq<u8>,
    amount: int,
    k: Seq<u8>,
)
    requires
        from != to,
    ensures
        balance_in(transferred(transferred(m, from, to, amount), to, from, amount), k) == balance_in(m, k),
{
}

/// A transfer of nothing leaves every balance as it was.
pub proof fn law_zero_transfer_keeps_balances(m: Map<Seq<u8>, int>, from: Seq<u8>, to: Seq<u8>, k: Seq<u8>)
    ensures
        balance_in(transferred(m, from, to, 0), k) == balance_in(m, k),
{
}

/// Two transfers of one amount along a chain of three holders give the
/// balances that one transfer from the first to the last gives.
pub proof fn law_transfers_chain(
    m: Map<Seq<u8>, int>,
    a: Seq<u8>,
    b: Seq<u8>,
    c: Seq<u8>,
    amount: int,
    k: Seq<u8>,
)
    requires
        a != b,
        b != c,
        a != c,
    ensures
        balance_in(transferred(transferred(m, a, b, amount), b, c, amount), k) == balance_in(
            transferred(m, a, c, amount),
            k,
        ),
{
}

} // verus!
