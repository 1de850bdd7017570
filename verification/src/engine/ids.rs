//! Row ids: what can be told from one.
use vstd::prelude::*;

use crate::classify::filter::Side;
use crate::engine::csv_source::{digit_value, digits_value, id_value, integer_value};
use crate::engine::runner::{row_id, TransformedObject};
use crate::engine::topic_runner::ElementKind;
use crate::model::Model;
use crate::text::{decimal, digit, spelled};

verus! {

/// The prefix that stands in the row id of an object on a side.
pub open spec fn id_prefix(obj: TransformedObject) -> Seq<char> {
    match obj.prefix {
        Some(p) => p@,
        None => "cycleway"@,
    }
}

/// Whether a text has no slash.
spec fn unslashed(s: Seq<char>) -> bool {
    forall|i: int| 0 <= i < s.len() ==> #[trigger] s[i] != '/'
}

proof fn lemma_digit(d: int)
    requires
        0 <= d < 10,
    ensures
        digit(d).len() == 1,
        digit_value(digit(d)[0]) == Some(d),
        digit(d)[0] != '/',
        digit(d)[0] != '-',
        digit(d)[0] != '+',
{
    reveal_strlit("0");
    reveal_strlit("1");
    reveal_strlit("2");
    reveal_strlit("3");
    reveal_strlit("4");
    reveal_strlit("5");
    reveal_strlit("6");
    reveal_strlit("7");
    reveal_strlit("8");
    reveal_strlit("9");
}

proof fn lemma_decimal(n: nat)
    ensures
        decimal(n).len() > 0,
        digits_value(decimal(n)) == Some(n as int),
        unslashed(decimal(n)),
        decimal(n)[0] != '-',
        decimal(n)[0] != '+',
    decreases n,
{
    if n < 10 {
        lemma_digit(n as int);
        assert(decimal(n).drop_last() =~= Seq::<char>::empty());
        assert(digits_value(decimal(n).drop_last()) == Some(0int));
    } else {
        lemma_decimal(n / 10);
        lemma_digit((n % 10) as int);
        let d = digit((n % 10) as int);
        assert(decimal(n).drop_last() =~= decimal(n / 10));
        assert(decimal(n).last() == d[0]);
        assert(decimal(n)[0] == decimal(n / 10)[0]);
        assert forall|i: int| 0 <= i < decimal(n).len() implies #[trigger] decimal(n)[i] != '/' by {
            if i < decimal(n / 10).len() {
                assert(decimal(n)[i] == decimal(n / 10)[i]);
            }
        }
    }
}

/// Two natural numbers are spelled alike only where they are the same.
pub proof fn spellings_tell_numbers_apart(a: nat, b: nat)
    requires
        decimal(a) == decimal(b),
    ensures
        a == b,
{
    lemma_decimal(a);
    lemma_decimal(b);
}

proof fn lemma_spelled(n: int)
    ensures
        integer_value(spelled(n)) == Some(n),
        unslashed(spelled(n)),
{
    reveal_strlit("-");
    if n < 0 {
        let d = decimal((-n) as nat);
        lemma_decimal((-n) as nat);
        assert(spelled(n)[0] == '-');
        assert(spelled(n).skip(1) =~= d);
    } else {
        lemma_decimal(n as nat);
    }
}

/// The number of an element, written in decimal, is read back.
pub proof fn written_id_is_read(n: i64)
    ensures
        id_value(spelled(n as int)) == Some(n),
{
    lemma_spelled(n as int);
}

proof fn lemma_split(a: Seq<char>, x: Seq<char>, b: Seq<char>, y: Seq<char>)
    requires
        unslashed(a),
        unslashed(b),
        x.len() == 0 || x[0] == '/',
        y.len() == 0 || y[0] == '/',
        a + x == b + y,
    ensures
        a == b,
        x == y,
{
    let s = a + x;
    if a.len() < b.len() {
        assert(s[a.len() as int] == x[0]);
        assert(s[a.len() as int] == b[a.len() as int]);
    } else if b.len() < a.len() {
        assert(s[b.len() as int] == y[0]);
        assert(s[b.len() as int] == a[b.len() as int]);
    }
    assert(a =~= s.take(a.len() as int));
    assert(b =~= s.take(b.len() as int));
    assert(x =~= s.skip(a.len() as int));
    assert(y =~= s.skip(b.len() as int));
}

/// What stands behind the number in the row id of an object.
spec fn tail(obj: TransformedObject) -> Seq<char> {
    if obj.side == Side::Self_ {
        Seq::empty()
    } else {
        "/"@ + id_prefix(obj) + if obj.side == Side::Left {
            "/left"@
        } else {
            "/right"@
        }
    }
}

proof fn lemma_tails(a: TransformedObject, b: TransformedObject)
    requires
        tail(a) == tail(b),
    ensures
        a.side == b.side,
        a.side != Side::Self_ ==> id_prefix(a) == id_prefix(b),
{
    reveal_strlit("/");
    reveal_strlit("/left");
    reveal_strlit("/right");
    if a.side != Side::Self_ && b.side != Side::Self_ {
        let n = tail(a).len();
        let (x, y) = (tail(a), tail(b));
        assert(x[n - 2] == if a.side == Side::Left {
            'f'
        } else {
            'h'
        });
        assert(y[n - 2] == if b.side == Side::Left {
            'f'
        } else {
            'h'
        });
        let m = if a.side == Side::Left {
            n - 5
        } else {
            n - 6
        };
        assert(id_prefix(a) =~= x.subrange(1, m));
        assert(id_prefix(b) =~= y.subrange(1, m));
    } else {
        assert(a.side != Side::Self_ ==> tail(a).len() > 0);
        assert(b.side != Side::Self_ ==> tail(b).len() > 0);
    }
}

proof fn lemma_kinds(a: ElementKind, b: ElementKind)
    ensures
        unslashed(a.spec_id_prefix()),
        a.spec_id_prefix() == b.spec_id_prefix() ==> a == b,
{
    reveal_strlit("node");
    reveal_strlit("way");
    reveal_strlit("relation");
    assert("way"@.len() == 3 && "node"@.len() == 4 && "relation"@.len() == 8);
}

proof fn lemma_parts(k: ElementKind, m: i64, a: TransformedObject)
    ensures
        row_id(k, m, a) == k.spec_id_prefix() + ("/"@ + (spelled(m as int) + tail(a))),
{
    let p = k.spec_id_prefix();
    let s = spelled(m as int);
    if a.side == Side::Self_ {
        assert(p + "/"@ + s =~= p + ("/"@ + (s + Seq::<char>::empty())));
    } else {
        let end = if a.side == Side::Left {
            "/left"@
        } else {
            "/right"@
        };
        let q = id_prefix(a);
        assert(row_id(k, m, a) == p + "/"@ + s + "/"@ + q + end);
        assert(p + "/"@ + s + "/"@ + q + end =~= p + ("/"@ + (s + ("/"@ + q + end))));
    }
}

proof fn lemma_behind_slash(x: Seq<char>, y: Seq<char>)
    requires
        "/"@ + x == "/"@ + y,
    ensures
        x == y,
{
    reveal_strlit("/");
    assert(x =~= ("/"@ + x).skip(1));
    assert(y =~= ("/"@ + y).skip(1));
}

proof fn lemma_tail_start(a: TransformedObject)
    ensures
        tail(a).len() == 0 || tail(a)[0] == '/',
{
    reveal_strlit("/");
}

/// Row ids tell objects apart: two are the same only for the same kind of element, the same
/// number, the same side and, on a side, the same prefix.
pub proof fn ids_tell_objects_apart(
    k: ElementKind,
    m: i64,
    a: TransformedObject,
    l: ElementKind,
    n: i64,
    b: TransformedObject,
)
    requires
        row_id(k, m, a) == row_id(l, n, b),
    ensures
        k == l,
        m == n,
        a.side == b.side,
        a.side != Side::Self_ ==> id_prefix(a) == id_prefix(b),
{
    let (p, q) = (k.spec_id_prefix(), l.spec_id_prefix());
    let (s, t) = (spelled(m as int), spelled(n as int));
    let (x, y) = ("/"@ + (s + tail(a)), "/"@ + (t + tail(b)));
    lemma_parts(k, m, a);
    lemma_parts(l, n, b);
    lemma_kinds(k, l);
    lemma_kinds(l, k);
    assert(x[0] == '/' && y[0] == '/') by {
        reveal_strlit("/");
    }
    lemma_split(p, x, q, y);
    lemma_behind_slash(s + tail(a), t + tail(b));
    lemma_spelled(m as int);
    lemma_spelled(n as int);
    lemma_tail_start(a);
    lemma_tail_start(b);
    lemma_split(s, tail(a), t, tail(b));
    lemma_tails(a, b);
}

} // verus!
