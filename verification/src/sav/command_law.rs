//! What the commands of compressed data stand for.
use vstd::prelude::*;

use crate::arith::NumOp;
use crate::arith_law::exact;
use crate::number::{nearest, Number};
use crate::number_law::small;
use crate::sav::bytes;
use crate::sav::reader;
use crate::sav::reader::{SavHeader, StreamView};
use crate::text;
use crate::value::ValueView;

verus! {

/// The first command of a block that is none of 0, and 252 to 255, is an integer: the
/// command less the bias of the file. It takes no data, and the next value is that of
/// the next command.
pub proof fn law_integer_command<F: Fn(NumOp) -> Number>(
    s: Seq<u8>,
    p: int,
    h: SavHeader,
    bias: int,
    numeric: bool,
    calc: F,
)
    requires
        exact(calc),
        h.compression == 1,
        h.bias == nearest(bias),
        small(bias),
        0 <= p,
        p + 8 <= s.len(),
        1 <= s[p] <= 251,
        small(s[p] - bias),
    ensures
        reader::fetched(s, reader::stream_from(p), h, numeric, calc) matches Some((v, next)) && {
            &&& v == ValueView::Numeric(nearest(s[p] - bias))
            &&& next.pos == p + 8 && next.idx == 1
            &&& next.commands == s.subrange(p, p + 8)
        },
{
    let c = s[p] as int;
    assert(s.subrange(p, p + 8)[0] == s[p]);
    assert(crate::arith::meaning(calc, NumOp::Sub(nearest(c), nearest(bias))) == nearest(c - bias));
}

/// The other commands: 253 stands for the double that follows the block, 254 for the
/// eight bytes of text that follow it, 255 for a missing value, and 252 ends the data.
/// A command 0 is passed over.
pub proof fn law_other_commands<F: Fn(NumOp) -> Number>(
    s: Seq<u8>,
    p: int,
    h: SavHeader,
    numeric: bool,
    calc: F,
)
    requires
        h.compression == 1,
        0 <= p,
        p + 16 <= s.len(),
    ensures
        ({
            let r = reader::fetched(s, reader::stream_from(p), h, numeric, calc);
            let behind = |n: int| StreamView { pos: n, commands: s.subrange(p, p + 8), idx: 1 };
            &&& s[p] == 253 ==> r == Some(
                (ValueView::Numeric(bytes::number_at(s, p + 8)), behind(p + 16)),
            )
            &&& s[p] == 254 ==> r == Some(
                (ValueView::String(text::lossy_text(s.subrange(p + 8, p + 16))), behind(p + 16)),
            )
            &&& s[p] == 255 ==> r == Some((ValueView::SystemMissing, behind(p + 8)))
            &&& s[p] == 252 ==> r is None
            &&& s[p] == 0 ==> r == reader::fetched(s, behind(p + 8), h, numeric, calc)
        }),
{
    assert(s.subrange(p, p + 8)[0] == s[p]);
}

/// The commands of a block are taken in their order, from the first that is left.
pub proof fn law_commands_in_order<F: Fn(NumOp) -> Number>(
    s: Seq<u8>,
    st: StreamView,
    h: SavHeader,
    bias: int,
    numeric: bool,
    calc: F,
)
    requires
        exact(calc),
        h.compression == 1,
        h.bias == nearest(bias),
        small(bias),
        0 <= st.idx < 8,
        st.commands.len() == 8,
        1 <= st.commands[st.idx] <= 251,
        small(st.commands[st.idx] - bias),
    ensures
        reader::fetched(s, st, h, numeric, calc) == Some(
            (
                ValueView::Numeric(nearest(st.commands[st.idx] - bias)),
                StreamView { idx: st.idx + 1, ..st },
            ),
        ),
{
    let c = st.commands[st.idx] as int;
    assert(crate::arith::meaning(calc, NumOp::Sub(nearest(c), nearest(bias))) == nearest(c - bias));
}

} // verus!
