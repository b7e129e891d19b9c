//! Properties of the protocol engine that relate several of its functions.

use vstd::prelude::*;

use crate::parse::Outcome;
use crate::query::{command, expects_data, spec_frame, Query, QueryView};

verus! {

/// Every wire command begins with `!` and ends with a newline.
pub proof fn lemma_command_bang_newline(q: QueryView)
    ensures
        command(q).len() >= 2,
        command(q)[0] == '!',
        command(q).last() == '\n',
{
    reveal_strlit("!v\n");
    reveal_strlit("!n");
    reveal_strlit("\n");
    reveal_strlit("!t");
    reveal_strlit("!s-lc\n");
    reveal_strlit("!s");
    reveal_strlit("!s-*\n");
    reveal_strlit("!i");
    reveal_strlit(",1\n");
    reveal_strlit("!g");
    reveal_strlit("!6");
    reveal_strlit("!m");
    reveal_strlit(",");
    reveal_strlit("!o");
    reveal_strlit("!r");
    reveal_strlit(",o\n");
    reveal_strlit(",l\n");
    reveal_strlit(",L\n");
    reveal_strlit(",M\n");
}

/// A query that expects no data frames no item: its item parser consumes
/// nothing, whatever the buffer holds.
pub proof fn lemma_no_data_frames_nothing(q: QueryView, s: Seq<u8>)
    requires
        !expects_data(q),
    ensures
        spec_frame(q, s) == Outcome::Done(0usize, (0usize, 0usize)),
{
}

/// A query renders as a function of its value: equal queries have equal
/// wire commands.
pub proof fn lemma_command_stable(a: Query, b: Query)
    requires
        a@ == b@,
    ensures
        command(a@) == command(b@),
{
}

} // verus!
