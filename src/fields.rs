use vstd::prelude::*;
use crate::report::{decimal, decimal_string};

verus! {

/// One generated field: `pub <name><i>: <type>, `.
pub open spec fn field_decl(field_type: Seq<char>, field_name: Seq<char>, i: nat) -> Seq<char> {
    seq!['p', 'u', 'b', ' '] + field_name + decimal(i) + seq![':', ' '] + field_type + seq![',', ' ']
}

/// The generated fields numbered 1 up to, not including, `count`.
pub open spec fn field_decls(field_type: Seq<char>, field_name: Seq<char>, count: nat) -> Seq<char>
    decreases count,
{
    if count <= 1 {
        Seq::empty()
    } else {
        field_decls(field_type, field_name, (count - 1) as nat) + field_decl(
            field_type,
            field_name,
            (count - 1) as nat,
        )
    }
}

/// Expands a struct's field list: puts `field_count - 1` public fields of type
/// `field_type`, named `field_name` followed by 1, 2, ..., in front of the
/// fields in `body`.
pub fn derivefields(field_type: &String, field_name: &String, field_count: u64, body: &String) -> (r:
    String)
    ensures
        r@ == field_decls(field_type@, field_name@, field_count as nat) + body@,
{
    let mut out = String::new();
    let mut i: u64 = 1;
    proof {
        assert(field_decls(field_type@, field_name@, 1) == Seq::<char>::empty());
    }
    while i < field_count
        invariant
            1 <= i,
            field_count >= 1 ==> i <= field_count,
            field_count == 0 ==> i == 1,
            out@ == field_decls(field_type@, field_name@, i as nat),
        decreases field_count - i,
    {
        let num = decimal_string(i);
        out.append("pub ");
        out.append(field_name.as_str());
        out.append(num.as_str());
        out.append(": ");
        out.append(field_type.as_str());
        out.append(", ");
        proof {
            reveal_strlit("pub ");
            reveal_strlit(": ");
            reveal_strlit(", ");
            assert(out@ =~= field_decls(field_type@, field_name@, i as nat) + field_decl(
                field_type@,
                field_name@,
                i as nat,
            ));
        }
        i += 1;
    }
    proof {
        if field_count <= 1 {
            assert(field_decls(field_type@, field_name@, field_count as nat) == Seq::<char>::empty());
            assert(field_decls(field_type@, field_name@, i as nat) == Seq::<char>::empty());
        } else {
            assert(i == field_count);
        }
        assert(out@ == field_decls(field_type@, field_name@, field_count as nat));
    }
    let ghost before = out@;
    out.append(body.as_str());
    proof {
        assert(out@ == before + body@);
    }
    out
}

} // verus!
