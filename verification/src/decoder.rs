//! The stream decoder: an accumulator for the arbitrarily-chunked output of
//! the sidecar process, draining every fully-present Content-Length framed
//! message and keeping whatever is still incomplete.

use vstd::prelude::*;

use crate::frame::{
    all_digits, bounded_parse, cl_prefix, content_length_of, digits_val, drain, find_byte_from,
    find_sep_from, has_cl_prefix, header_value, is_digit, is_ws, lemma_digits_val_extend,
    lemma_find_byte, lemma_find_byte_is, lemma_find_sep, lemma_find_sep_is, lemma_quiescent_drain,
    lemma_trim_back_is, lemma_trim_front_is, lower_byte_spec, parse_len, quiescent, sep_at,
    trim_ws,
};

verus! {

fn lower_byte(c: u8) -> (r: u8)
    ensures
        r == lower_byte_spec(c),
{
    if 65 <= c && c <= 90 {
        c + 32
    } else {
        c
    }
}

fn is_ws_exec(c: u8) -> (r: bool)
    ensures
        r == is_ws(c),
{
    c == 9 || c == 10 || c == 11 || c == 12 || c == 13 || c == 32
}

fn copy_range(v: &Vec<u8>, a: usize, b: usize) -> (r: Vec<u8>)
    requires
        a <= b <= v@.len(),
    ensures
        r@ == v@.subrange(a as int, b as int),
{
    let mut r: Vec<u8> = Vec::new();
    let mut i: usize = a;
    while i < b
        invariant
            a <= i <= b <= v@.len(),
            r@ == v@.subrange(a as int, i as int),
        decreases b - i,
    {
        r.push(v[i]);
        proof {
            assert(r@ =~= v@.subrange(a as int, i + 1));
        }
        i += 1;
    }
    r
}

fn drop_front(v: &mut Vec<u8>, n: usize)
    requires
        n <= old(v)@.len(),
    ensures
        final(v)@ == old(v)@.subrange(n as int, old(v)@.len() as int),
{
    let tail = copy_range(v, n, v.len());
    *v = tail;
}

fn find_sep(v: &Vec<u8>) -> (k: usize)
    ensures
        k as int == find_sep_from(v@, 0),
{
    let n = v.len();
    if n < 4 {
        proof {
            lemma_find_sep_is(v@, 0, n as int);
        }
        return n;
    }
    let mut i: usize = 0;
    while i <= n - 4
        invariant
            4 <= n == v@.len(),
            i <= n - 3,
            forall|j: int| 0 <= j < i ==> !sep_at(v@, j),
        decreases n - i,
    {
        if v[i] == 13 && v[i + 1] == 10 && v[i + 2] == 13 && v[i + 3] == 10 {
            proof {
                lemma_find_sep_is(v@, 0, i as int);
            }
            return i;
        }
        i += 1;
    }
    proof {
        assert(forall|j: int| 0 <= j < v@.len() ==> !sep_at(v@, j));
        lemma_find_sep_is(v@, 0, n as int);
    }
    n
}

fn find_nl(v: &Vec<u8>) -> (k: usize)
    ensures
        k as int == find_byte_from(v@, 0, 10u8),
{
    let mut i: usize = 0;
    while i < v.len()
        invariant
            i <= v@.len(),
            forall|j: int| 0 <= j < i ==> v@[j] != 10u8,
        decreases v@.len() - i,
    {
        if v[i] == 10 {
            proof {
                lemma_find_byte_is(v@, 0, 10u8, i as int);
            }
            return i;
        }
        i += 1;
    }
    proof {
        lemma_find_byte_is(v@, 0, 10u8, v@.len() as int);
    }
    v.len()
}

fn cl_prefix_vec() -> (p: Vec<u8>)
    ensures
        p@ == cl_prefix(),
{
    let mut p: Vec<u8> = Vec::new();
    p.push(99);
    p.push(111);
    p.push(110);
    p.push(116);
    p.push(101);
    p.push(110);
    p.push(116);
    p.push(45);
    p.push(108);
    p.push(101);
    p.push(110);
    p.push(103);
    p.push(116);
    p.push(104);
    p.push(58);
    proof {
        assert(p@ =~= cl_prefix());
    }
    p
}

fn check_cl_prefix(line: &Vec<u8>) -> (r: bool)
    ensures
        r == has_cl_prefix(line@),
{
    if line.len() < 15 {
        return false;
    }
    let p = cl_prefix_vec();
    let mut i: usize = 0;
    while i < 15
        invariant
            i <= 15,
            line@.len() >= 15,
            p@ == cl_prefix(),
            forall|j: int| 0 <= j < i ==> lower_byte_spec(line@[j]) == cl_prefix()[j],
        decreases 15 - i,
    {
        if lower_byte(line[i]) != p[i] {
            assert(lower_byte_spec(line@[i as int]) != cl_prefix()[i as int]);
            return false;
        }
        i += 1;
    }
    true
}

fn parse_digits(t: &Vec<u8>) -> (r: Option<usize>)
    ensures
        bounded_parse(t@) == match r {
            Some(n) => Some(n as nat),
            None => None::<nat>,
        },
{
    let mut i: usize = 0;
    if t.len() > 0 && t[0] == 43 {
        i = 1;
    }
    let ghost dstart = i as int;
    let ghost d = t@.subrange(dstart, t@.len() as int);
    if i >= t.len() {
        assert(d.len() == 0);
        return None;
    }
    let mut acc: usize = 0;
    while i < t.len()
        invariant
            dstart <= i as int <= t@.len(),
            dstart == 0 || dstart == 1,
            dstart == 1 ==> t@.len() > 0 && t@[0] == 43u8,
            dstart == 0 ==> !(t@.len() > 0 && t@[0] == 43u8),
            d == t@.subrange(dstart, t@.len() as int),
            d.len() > 0,
            all_digits(t@.subrange(dstart, i as int)),
            acc as nat == digits_val(t@.subrange(dstart, i as int)),
        decreases t@.len() - i,
    {
        let c = t[i];
        if !(48 <= c && c <= 57) {
            proof {
                assert(d[i - dstart] == t@[i as int]);
                assert(!is_digit(d[i - dstart]));
                assert(parse_len(t@) is None);
            }
            return None;
        }
        let dv = (c - 48) as usize;
        let ghost pre = t@.subrange(dstart, i as int);
        let ghost ext = t@.subrange(dstart, i + 1);
        proof {
            assert(ext.subrange(0, ext.len() - 1) =~= pre);
            assert(digits_val(ext) == digits_val(pre) * 10 + dv as nat);
        }
        if acc > (usize::MAX - dv) / 10 {
            proof {
                assert(acc as int * 10 + dv as int > usize::MAX as int) by (nonlinear_arith)
                    requires
                        acc as int > (usize::MAX as int - dv as int) / 10,
                        0 <= dv as int <= 9,
                        0 <= acc as int,
                ;
                assert(digits_val(ext) > usize::MAX as nat);
                assert(ext =~= d.subrange(0, i + 1 - dstart));
                lemma_digits_val_extend(d, i + 1 - dstart);
                assert(digits_val(d) > usize::MAX as nat);
                if dstart == 0 {
                    assert(t@.subrange(0, t@.len() as int) =~= t@);
                }
                if parse_len(t@) is Some {
                    assert(parse_len(t@) == Some(digits_val(d)));
                }
            }
            return None;
        }
        proof {
            assert(acc as int * 10 + dv as int <= usize::MAX as int) by (nonlinear_arith)
                requires
                    acc as int <= (usize::MAX as int - dv as int) / 10,
                    0 <= dv as int <= 9,
                    0 <= acc as int,
            ;
            assert(forall|j: int| 0 <= j < ext.len() ==> is_digit(#[trigger] ext[j]));
        }
        acc = acc * 10 + dv;
        i += 1;
    }
    proof {
        assert(t@.subrange(dstart, i as int) =~= d);
        if dstart == 0 {
            assert(t@.subrange(0, t@.len() as int) =~= t@);
        }
        assert(parse_len(t@) == Some(digits_val(d)));
    }
    Some(acc)
}

fn parse_value(v: &Vec<u8>) -> (r: Option<usize>)
    ensures
        bounded_parse(trim_ws(v@)) == match r {
            Some(n) => Some(n as nat),
            None => None::<nat>,
        },
{
    let n = v.len();
    let mut a: usize = 0;
    while a < n && is_ws_exec(v[a])
        invariant
            a <= n == v@.len(),
            forall|j: int| 0 <= j < a ==> is_ws(#[trigger] v@[j]),
        decreases n - a,
    {
        a += 1;
    }
    let mut b2: usize = n;
    while b2 > a && is_ws_exec(v[b2 - 1])
        invariant
            a <= b2 <= n == v@.len(),
            forall|j: int| b2 <= j < n ==> is_ws(#[trigger] v@[j]),
        decreases b2,
    {
        b2 -= 1;
    }
    proof {
        lemma_trim_front_is(v@, a as int);
        let s1 = v@.subrange(a as int, n as int);
        assert(forall|j: int| b2 - a <= j < s1.len() ==> is_ws(#[trigger] s1[j]));
        lemma_trim_back_is(s1, b2 - a);
        assert(s1.subrange(0, b2 - a) =~= v@.subrange(a as int, b2 as int));
        assert(trim_ws(v@) == v@.subrange(a as int, b2 as int));
    }
    let t = copy_range(v, a, b2);
    parse_digits(&t)
}

fn parse_header(h: &Vec<u8>) -> (r: Option<usize>)
    ensures
        content_length_of(h@) == match r {
            Some(n) => Some(n as nat),
            None => None::<nat>,
        },
    decreases h@.len(),
{
    let j = find_nl(h);
    proof {
        lemma_find_byte(h@, 0, 10u8);
    }
    let line = copy_range(h, 0, j);
    if check_cl_prefix(&line) {
        let value = copy_range(&line, 15, line.len());
        proof {
            assert(header_value(h@) == Some(value@));
        }
        return parse_value(&value);
    }
    if j >= h.len() {
        proof {
            assert(header_value(h@) is None);
        }
        return None;
    }
    let rest = copy_range(h, j + 1, h.len());
    proof {
        assert(header_value(h@) == header_value(rest@));
    }
    parse_header(&rest)
}

/// Reassembles framed messages out of an arbitrarily-chunked byte stream.
/// The buffer holds exactly the bytes received and not yet consumed, and
/// between calls it never holds a complete message.
pub struct Decoder {
    buf: Vec<u8>,
}

impl View for Decoder {
    type V = Seq<u8>;

    closed spec fn view(&self) -> Seq<u8> {
        self.buf@
    }
}

impl Decoder {
    /// The buffer has been fully drained: no complete message is pending.
    pub closed spec fn wf(&self) -> bool {
        quiescent(self.buf@)
    }

    pub fn new() -> (d: Decoder)
        ensures
            d@ == Seq::<u8>::empty(),
            d.wf(),
    {
        let d = Decoder { buf: Vec::new() };
        proof {
            lemma_find_sep(d.buf@, 0);
        }
        d
    }

    /// Appends one newly-arrived chunk and takes every message whose header,
    /// separator and declared-length body are now fully present, in order.
    /// The bytes kept are exactly what `drain` leaves of the old buffer
    /// followed by the chunk.
    pub fn push_chunk(&mut self, chunk: &Vec<u8>) -> (msgs: Vec<Vec<u8>>)
        requires
            old(self).wf(),
        ensures
            final(self).wf(),
            msgs@.map_values(|m: Vec<u8>| m@) == drain(old(self)@ + chunk@).0,
            final(self)@ == drain(old(self)@ + chunk@).1,
    {
        let ghost orig: Seq<u8> = self.buf@ + chunk@;
        let mut i: usize = 0;
        while i < chunk.len()
            invariant
                i <= chunk@.len(),
                self.buf@ == old(self).buf@ + chunk@.subrange(0, i as int),
            decreases chunk@.len() - i,
        {
            self.buf.push(chunk[i]);
            proof {
                assert(old(self).buf@ + chunk@.subrange(0, i + 1) =~= (old(self).buf@
                    + chunk@.subrange(0, i as int)).push(chunk@[i as int]));
            }
            i += 1;
        }
        proof {
            assert(chunk@.subrange(0, chunk@.len() as int) =~= chunk@);
            assert(self.buf@ == orig);
        }
        let mut msgs: Vec<Vec<u8>> = Vec::new();
        loop
            invariant
                drain(orig).0 == msgs@.map_values(|m: Vec<u8>| m@) + drain(self.buf@).0,
                drain(orig).1 == drain(self.buf@).1,
            ensures
                quiescent(self.buf@),
                drain(orig).0 == msgs@.map_values(|m: Vec<u8>| m@) + drain(self.buf@).0,
                drain(orig).1 == drain(self.buf@).1,
            decreases self.buf@.len(),
        {
            let ghost b = self.buf@;
            let k = find_sep(&self.buf);
            proof {
                lemma_find_sep(b, 0);
            }
            if k >= self.buf.len() {
                break;
            }
            // a separator stands at k, so k + 4 <= buffer length
            let header = copy_range(&self.buf, 0, k);
            match parse_header(&header) {
                None => {
                    // malformed header block: skip it and the separator
                    drop_front(&mut self.buf, k + 4);
                    proof {
                        assert(drain(b) == drain(b.subrange(k + 4, b.len() as int)));
                    }
                }
                Some(n) => {
                    if n > self.buf.len() - (k + 4) {
                        // the full body has not arrived yet
                        proof {
                            assert(quiescent(b));
                        }
                        break;
                    }
                    let body = copy_range(&self.buf, k + 4, k + 4 + n);
                    drop_front(&mut self.buf, k + 4 + n);
                    proof {
                        let rest = b.subrange(k + 4 + n as int, b.len() as int);
                        assert(drain(b).0 =~= seq![body@] + drain(rest).0);
                        assert(drain(b).1 == drain(rest).1);
                        assert(msgs@.push(body).map_values(|m: Vec<u8>| m@) =~= msgs@.map_values(
                            |m: Vec<u8>| m@,
                        ).push(body@));
                        assert(msgs@.push(body).map_values(|m: Vec<u8>| m@) + drain(rest).0
                            =~= msgs@.map_values(|m: Vec<u8>| m@) + (seq![body@] + drain(rest).0));
                    }
                    msgs.push(body);
                }
            }
        }
        proof {
            lemma_quiescent_drain(self.buf@);
            assert(drain(orig).0 =~= msgs@.map_values(|m: Vec<u8>| m@));
        }
        msgs
    }
}

} // verus!
