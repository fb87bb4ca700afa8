//! Elements of the BLS12-381 scalar field, held as their canonical
//! little-endian bytes, and the Poseidon sponge hash over them.

use dusk_bls12_381::BlsScalar;
use vstd::prelude::*;
use vstd::std_specs::cmp::PartialEqSpecImpl;

verus! {

/// The order of the scalar field.
pub open spec fn modulus() -> nat {
    0x73eda753299d7d483339d80809a1d80553bda402fffe5bfeffffffff00000001nat
}

/// The number that `bytes` spell in little-endian order.
pub open spec fn le_value(bytes: Seq<u8>) -> nat
    decreases bytes.len(),
{
    if bytes.len() == 0 {
        0
    } else {
        bytes[0] as nat + 256 * le_value(bytes.drop_first())
    }
}

/// Two byte strings of one length that spell the same number are equal.
pub proof fn lemma_le_value_injective(a: Seq<u8>, b: Seq<u8>)
    requires
        a.len() == b.len(),
        le_value(a) == le_value(b),
    ensures
        a == b,
    decreases a.len(),
{
    if a.len() > 0 {
        lemma_le_value_injective(a.drop_first(), b.drop_first());
        assert(a =~= seq![a[0]] + a.drop_first());
        assert(b =~= seq![b[0]] + b.drop_first());
    } else {
        assert(a =~= b);
    }
}

/// Zero bytes spell zero.
pub proof fn lemma_le_value_zeros(bytes: Seq<u8>)
    requires
        forall|i: int| 0 <= i < bytes.len() ==> bytes[i] == 0,
    ensures
        le_value(bytes) == 0,
    decreases bytes.len(),
{
    if bytes.len() > 0 {
        lemma_le_value_zeros(bytes.drop_first());
    }
}

/// An element of the scalar field. Its view is the element as a natural
/// number below [`modulus`].
#[derive(Clone, Copy, Debug)]
pub struct FieldElement {
    bytes: [u8; 32],
}

impl View for FieldElement {
    type V = nat;

    closed spec fn view(&self) -> nat {
        le_value(self.bytes@)
    }
}

/// The numbers that a sequence of elements stands for.
pub open spec fn element_values(elements: Seq<FieldElement>) -> Seq<nat> {
    Seq::new(elements.len(), |i: int| elements[i]@)
}

/// What the Poseidon sponge returns for the elements `inputs`.
pub uninterp spec fn poseidon_sponge(inputs: Seq<nat>) -> nat;

/// The hash of a sequence of field elements: zero for no element at all, and
/// the Poseidon sponge of the sequence otherwise.
pub open spec fn hash_spec(inputs: Seq<nat>) -> nat {
    if inputs.len() == 0 {
        0
    } else {
        poseidon_sponge(inputs)
    }
}

/// Calls `BlsScalar::from_bytes`, which takes 32 little-endian bytes and
/// accepts them exactly when the number they spell is below the field's
/// order. Only whether it accepted is handed on.
#[verifier::external_body]
fn is_canonical(bytes: &[u8; 32]) -> (accepted: bool)
    ensures
        accepted == (le_value(bytes@) < modulus()),
{
    BlsScalar::from_bytes(bytes).is_some().into()
}

/// Calls `dusk_poseidon::sponge::hash` on the scalars that the elements
/// stand for. The result is a function of those scalars alone, and the
/// sponge hands back its untouched zero state when there is no input.
#[verifier::external_body]
fn sponge_digest(inputs: &Vec<FieldElement>) -> (digest: FieldElement)
    ensures
        digest@ == poseidon_sponge(element_values(inputs@)),
        inputs@.len() == 0 ==> digest@ == 0,
{
    let scalars: Vec<BlsScalar> =
        inputs.iter().map(|e| BlsScalar::from_bytes(&e.bytes).unwrap()).collect();
    FieldElement { bytes: dusk_poseidon::sponge::hash(&scalars).to_bytes() }
}

impl FieldElement {
    #[verifier::type_invariant]
    spec fn canonical(self) -> bool {
        le_value(self.bytes@) < modulus()
    }

    /// The zero element.
    pub fn zero() -> (element: FieldElement)
        ensures
            element@ == 0,
    {
        let bytes = [0u8; 32];
        proof {
            lemma_le_value_zeros(bytes@);
        }
        FieldElement { bytes }
    }

    /// The element that 32 little-endian bytes spell, if the number is below
    /// the field's order.
    pub fn from_bytes(bytes: &[u8; 32]) -> (element: Option<FieldElement>)
        ensures
            element is Some <==> le_value(bytes@) < modulus(),
            element matches Some(e) ==> e@ == le_value(bytes@),
    {
        if is_canonical(bytes) {
            Some(FieldElement { bytes: *bytes })
        } else {
            None
        }
    }

    /// The element as 32 little-endian bytes.
    pub fn to_bytes(&self) -> (bytes: [u8; 32])
        ensures
            le_value(bytes@) == self@,
            self@ < modulus(),
    {
        proof {
            use_type_invariant(self);
        }
        self.bytes
    }
}

impl PartialEq for FieldElement {
    fn eq(&self, other: &FieldElement) -> (equal: bool) {
        let mut i: usize = 0;
        while i < 32
            invariant
                i <= 32,
                forall|j: int| 0 <= j < i ==> self.bytes@[j] == other.bytes@[j],
            decreases 32 - i,
        {
            if self.bytes[i] != other.bytes[i] {
                proof {
                    if self@ == other@ {
                        lemma_le_value_injective(self.bytes@, other.bytes@);
                    }
                }
                return false;
            }
            i += 1;
        }
        assert(self.bytes@ =~= other.bytes@);
        true
    }
}

impl PartialEqSpecImpl for FieldElement {
    open spec fn obeys_eq_spec() -> bool {
        true
    }

    open spec fn eq_spec(&self, other: &FieldElement) -> bool {
        self@ == other@
    }
}

/// Hashes a sequence of field elements to one element.
pub fn poseidon_hash(inputs: &Vec<FieldElement>) -> (digest: FieldElement)
    ensures
        digest@ == hash_spec(element_values(inputs@)),
{
    let digest = sponge_digest(inputs);
    assert(element_values(inputs@).len() == inputs@.len());
    digest
}

} // verus!
