use vstd::prelude::*;

verus! {

/// The three record partitions, chosen by the class of a code's first character.
#[derive(Debug, Clone, Copy, PartialEq, Eq)]
pub enum Partition {
    Upper,
    Lower,
    Digit,
}

/// The partition of a code whose first character is `c`.
pub open spec fn partition_for(c: char) -> Partition {
    if 'A' <= c && c <= 'Z' {
        Partition::Upper
    } else if 'a' <= c && c <= 'z' {
        Partition::Lower
    } else {
        Partition::Digit
    }
}

/// The name under which a partition is stored.
pub open spec fn partition_name(p: Partition) -> Seq<char> {
    match p {
        Partition::Upper => seq!['u', 'p', 'p', 'e', 'r'],
        Partition::Lower => seq!['l', 'o', 'w', 'e', 'r'],
        Partition::Digit => seq!['d', 'i', 'g', 'i', 't'],
    }
}

impl Partition {
    /// The name under which this partition is stored.
    pub fn name(&self) -> (r: String)
        ensures
            r@ == partition_name(*self),
    {
        match self {
            Partition::Upper => {
                let r = String::from_str("upper");
                proof {
                    reveal_strlit("upper");
                }
                assert(r@ =~= partition_name(*self));
                r
            },
            Partition::Lower => {
                let r = String::from_str("lower");
                proof {
                    reveal_strlit("lower");
                }
                assert(r@ =~= partition_name(*self));
                r
            },
            Partition::Digit => {
                let r = String::from_str("digit");
                proof {
                    reveal_strlit("digit");
                }
                assert(r@ =~= partition_name(*self));
                r
            },
        }
    }
}

/// The partition of a code, from its first character alone.
pub fn partition_of(code: &str) -> (r: Partition)
    requires
        code@.len() > 0,
    ensures
        r == partition_for(code@[0]),
{
    let c = code.get_char(0);
    if 'A' <= c && c <= 'Z' {
        Partition::Upper
    } else if 'a' <= c && c <= 'z' {
        Partition::Lower
    } else {
        Partition::Digit
    }
}

/// The name of the partition that holds the records of a code.
pub fn collection_name(hash: &str) -> (r: String)
    requires
        hash@.len() > 0,
    ensures
        r@ == partition_name(partition_for(hash@[0])),
{
    partition_of(hash).name()
}

/// Codes that begin with the same character share a partition.
pub proof fn lemma_partition_by_first_char(a: Seq<char>, b: Seq<char>)
    requires
        a.len() > 0,
        b.len() > 0,
        a[0] == b[0],
    ensures
        partition_for(a[0]) == partition_for(b[0]),
{
}

} // verus!
