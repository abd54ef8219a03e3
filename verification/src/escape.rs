//! Escaping of text that is inserted into the output document, both as
//! attribute values (paths) and as element content.

use vstd::prelude::*;

verus! {

pub const AMP: u8 = 38;

pub const LT: u8 = 60;

pub const GT: u8 = 62;

/// The bytes that stand for one input byte after escaping: `&`, `<` and `>`
/// become their named entity references, every other byte passes through.
pub open spec fn escaped_byte(b: u8) -> Seq<u8> {
    if b == AMP {
        seq![AMP, 97, 109, 112, 59]
    } else if b == LT {
        seq![AMP, 108, 116, 59]
    } else if b == GT {
        seq![AMP, 103, 116, 59]
    } else {
        seq![b]
    }
}

/// The escaped form of a whole byte string.
pub open spec fn escaped(s: Seq<u8>) -> Seq<u8>
    decreases s.len(),
{
    if s.len() == 0 {
        Seq::empty()
    } else {
        escaped_byte(s[0]) + escaped(s.skip(1))
    }
}

/// Replaces `&`, `<` and `>` with `&amp;`, `&lt;` and `&gt;`; no other byte is
/// altered. Applied to raw content exactly once; it is not idempotent.
pub fn escape_xml(s: &[u8]) -> (r: Vec<u8>)
    ensures
        r@ == escaped(s@),
{
    let mut out: Vec<u8> = Vec::new();
    let mut i: usize = 0;
    proof {
        assert(s@.skip(0) =~= s@);
    }
    while i < s.len()
        invariant
            i <= s@.len(),
            out@ + escaped(s@.skip(i as int)) == escaped(s@),
        decreases s@.len() - i,
    {
        let ghost prev_out = out@;
        let b = s[i];
        if b == AMP {
            out.push(AMP);
            out.push(97);
            out.push(109);
            out.push(112);
            out.push(59);
        } else if b == LT {
            out.push(AMP);
            out.push(108);
            out.push(116);
            out.push(59);
        } else if b == GT {
            out.push(AMP);
            out.push(103);
            out.push(116);
            out.push(59);
        } else {
            out.push(b);
        }
        proof {
            assert(out@ =~= prev_out + escaped_byte(b));
            assert(s@.skip(i as int).skip(1) =~= s@.skip(i as int + 1));
            assert(escaped(s@.skip(i as int)) == escaped_byte(b) + escaped(s@.skip(i as int + 1)));
            assert(out@ + escaped(s@.skip(i as int + 1)) =~= prev_out + escaped(s@.skip(i as int)));
        }
        i = i + 1;
    }
    proof {
        assert(s@.skip(i as int) =~= Seq::<u8>::empty());
        assert(out@ + escaped(s@.skip(i as int)) =~= out@);
    }
    out
}

/// A string holding none of `&`, `<`, `>` escapes to itself.
pub proof fn lemma_escape_identity(s: Seq<u8>)
    requires
        forall|i: int| 0 <= i < s.len() ==> s[i] != AMP && s[i] != LT && s[i] != GT,
    ensures
        escaped(s) == s,
    decreases s.len(),
{
    if s.len() == 0 {
        assert(escaped(s) =~= s);
    } else {
        lemma_escape_identity(s.skip(1));
        assert(escaped(s) =~= s);
    }
}

} // verus!
