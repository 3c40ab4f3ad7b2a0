use vstd::prelude::*;

verus! {

/// Code-point order on characters; for strings it agrees with the byte
/// order of their UTF-8 encoding.
pub open spec fn char_lt(a: char, b: char) -> bool {
    (a as int) < (b as int)
}

/// `a` and `b` agree on their first `i` characters.
pub open spec fn agree_upto(a: Seq<char>, b: Seq<char>, i: int) -> bool {
    &&& 0 <= i <= a.len()
    &&& i <= b.len()
    &&& forall|j: int| 0 <= j < i ==> a[j] == b[j]
}

/// `i` is the place where `a` and `b` first part, with `a` coming first.
pub open spec fn lt_at(a: Seq<char>, b: Seq<char>, i: int) -> bool {
    &&& agree_upto(a, b, i)
    &&& ((i == a.len() && i < b.len()) || (i < a.len() && i < b.len() && char_lt(a[i], b[i])))
}

/// Strict lexicographic order on character sequences.
pub open spec fn seq_lt(a: Seq<char>, b: Seq<char>) -> bool {
    exists|i: int| lt_at(a, b, i)
}

proof fn lemma_lt_at_unique(a: Seq<char>, b: Seq<char>, i: int, j: int)
    requires
        agree_upto(a, b, i),
        lt_at(a, b, j) || lt_at(b, a, j),
    ensures
        i <= j,
{
    if j < i {
        assert(a[j] == b[j]);
    }
}

pub proof fn lemma_seq_lt_irreflexive(a: Seq<char>)
    ensures
        !seq_lt(a, a),
{
    if seq_lt(a, a) {
        let i = choose|i: int| lt_at(a, a, i);
        assert(lt_at(a, a, i));
    }
}

pub proof fn lemma_seq_lt_asymmetric(a: Seq<char>, b: Seq<char>)
    ensures
        seq_lt(a, b) ==> !seq_lt(b, a),
{
    if seq_lt(a, b) && seq_lt(b, a) {
        let i = choose|i: int| lt_at(a, b, i);
        let j = choose|j: int| lt_at(b, a, j);
        lemma_lt_at_unique(a, b, i, j);
        assert(agree_upto(b, a, j));
        lemma_lt_at_unique(b, a, j, i);
        assert(i == j);
    }
}

pub proof fn lemma_seq_lt_transitive(a: Seq<char>, b: Seq<char>, c: Seq<char>)
    requires
        seq_lt(a, b),
        seq_lt(b, c),
    ensures
        seq_lt(a, c),
{
    let i = choose|i: int| lt_at(a, b, i);
    let j = choose|j: int| lt_at(b, c, j);
    if i < j {
        assert(lt_at(a, c, i));
    } else if j < i {
        assert(lt_at(a, c, j));
    } else {
        assert(lt_at(a, c, i));
    }
}

/// Three-way comparison of two strings in the order `seq_lt`.
pub fn compare_str(a: &str, b: &str) -> (r: i8)
    ensures
        r < 0 <==> seq_lt(a@, b@),
        r == 0 <==> a@ == b@,
        r > 0 <==> seq_lt(b@, a@),
{
    let la = a.unicode_len();
    let lb = b.unicode_len();
    let mut i: usize = 0;
    while i < la && i < lb
        invariant
            la == a@.len(),
            lb == b@.len(),
            agree_upto(a@, b@, i as int),
        decreases la - i,
    {
        let ca = a.get_char(i);
        let cb = b.get_char(i);
        if ca != cb {
            proof {
                lemma_seq_lt_asymmetric(a@, b@);
                assert((ca as int) != (cb as int));
            }
            if (ca as u32) < (cb as u32) {
                assert(lt_at(a@, b@, i as int));
                return -1;
            } else {
                assert(lt_at(b@, a@, i as int));
                return 1;
            }
        }
        i = i + 1;
    }
    proof {
        lemma_seq_lt_asymmetric(a@, b@);
        lemma_seq_lt_irreflexive(a@);
    }
    if la < lb {
        assert(lt_at(a@, b@, i as int));
        -1
    } else if lb < la {
        assert(lt_at(b@, a@, i as int));
        1
    } else {
        assert(a@ =~= b@);
        0
    }
}

} // verus!
