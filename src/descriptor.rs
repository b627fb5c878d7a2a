//! JVM type descriptors: `I`, `Ljava/lang/String;`, `[I`, `(II)V`.
use vstd::prelude::*;
use vstd::string::StringExecFns;

verus! {

/// A Java type, as a descriptor names it.
pub enum Java<'a> {
    Boolean,
    Byte,
    Char,
    Short,
    Int,
    Long,
    Float,
    Double,
    Void,
    Class(&'a str),
    Array(Box<Java<'a>>),
}

pub open spec fn descriptor_of<'a>(j: Java<'a>) -> Seq<char>
    decreases j,
{
    match j {
        Java::Boolean => seq!['Z'],
        Java::Byte => seq!['B'],
        Java::Char => seq!['C'],
        Java::Short => seq!['S'],
        Java::Int => seq!['I'],
        Java::Long => seq!['J'],
        Java::Float => seq!['F'],
        Java::Double => seq!['D'],
        Java::Void => seq!['V'],
        Java::Class(name) => seq!['L'] + name@ + seq![';'],
        Java::Array(inner) => seq!['['] + descriptor_of(*inner),
    }
}

/// The descriptors of `types`, one after the other.
pub open spec fn descriptors_of<'a>(types: Seq<Java<'a>>) -> Seq<char>
    decreases types.len(),
{
    if types.len() == 0 {
        seq![]
    } else {
        descriptors_of(types.drop_last()) + descriptor_of(types.last())
    }
}

impl<'a> Java<'a> {
    /// The type's descriptor.
    pub fn descriptor(&self) -> (r: String)
        ensures
            r@ == descriptor_of(*self),
        decreases self,
    {
        let mut r = String::new();
        let letter: &str = match self {
            Java::Boolean => "Z",
            Java::Byte => "B",
            Java::Char => "C",
            Java::Short => "S",
            Java::Int => "I",
            Java::Long => "J",
            Java::Float => "F",
            Java::Double => "D",
            Java::Void => "V",
            Java::Class(_) => "L",
            Java::Array(_) => "[",
        };
        proof {
            reveal_strlit("Z");
            reveal_strlit("B");
            reveal_strlit("C");
            reveal_strlit("S");
            reveal_strlit("I");
            reveal_strlit("J");
            reveal_strlit("F");
            reveal_strlit("D");
            reveal_strlit("V");
            reveal_strlit("L");
            reveal_strlit("[");
            reveal_strlit(";");
        }
        r.append(letter);
        match self {
            Java::Class(name) => {
                r.append(name);
                r.append(";");
            },
            Java::Array(inner) => {
                let d = inner.descriptor();
                r.append(d.as_str());
            },
            _ => {},
        }
        proof {
            assert(r@ =~= descriptor_of(*self));
        }
        r
    }
}

/// The descriptor of a method taking `argument_types` and returning
/// `return_type`: `(` the arguments' descriptors `)` the result's.
pub fn method_signature(argument_types: &[Java], return_type: &Java) -> (r: String)
    ensures
        r@ == seq!['('] + descriptors_of(argument_types@) + seq![')'] + descriptor_of(*return_type),
{
    proof {
        reveal_strlit("(");
        reveal_strlit(")");
    }
    let mut r = String::new();
    r.append("(");
    let mut i: usize = 0;
    proof {
        assert(argument_types@.take(0) =~= Seq::<Java>::empty());
        assert(r@ =~= seq!['('] + descriptors_of(argument_types@.take(0)));
    }
    while i < argument_types.len()
        invariant
            i <= argument_types@.len(),
            r@ == seq!['('] + descriptors_of(argument_types@.take(i as int)),
        decreases argument_types@.len() - i,
    {
        let d = argument_types[i].descriptor();
        r.append(d.as_str());
        proof {
            assert(argument_types@.take(i + 1).drop_last() =~= argument_types@.take(i as int));
            assert(r@ =~= seq!['('] + descriptors_of(argument_types@.take(i + 1)));
        }
        i = i + 1;
    }
    proof {
        assert(argument_types@.take(i as int) =~= argument_types@);
    }
    r.append(")");
    let d = return_type.descriptor();
    r.append(d.as_str());
    proof {
        assert(r@ =~= seq!['('] + descriptors_of(argument_types@) + seq![')'] + descriptor_of(*return_type));
    }
    r
}

} // verus!
