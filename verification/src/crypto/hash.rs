//! Hash functions, computed by `aws_lc_rs::digest`.

use aws_lc_rs::digest;

use vstd::prelude::*;

verus! {

/// The hash functions that cipher suites use.
#[derive(Clone, Copy, Debug, PartialEq, Eq, Structural)]
pub enum HashAlgorithm {
    SHA256,
    SHA384,
}

impl HashAlgorithm {
    /// The length of a hash value.
    pub open spec fn output_size(self) -> nat {
        match self {
            HashAlgorithm::SHA256 => 32,
            HashAlgorithm::SHA384 => 48,
        }
    }

    /// The length of a hash value.
    pub fn output_len(self) -> (r: usize)
        ensures
            r == self.output_size(),
    {
        match self {
            HashAlgorithm::SHA256 => 32,
            HashAlgorithm::SHA384 => 48,
        }
    }
}

/// The state of `aws_lc_rs::digest` between the parts of its input.
#[verifier::external_type_specification]
#[verifier::external_body]
pub struct ExDigestContext(digest::Context);

/// The bytes that a digest context has taken in so far.
pub uninterp spec fn digest_input(context: digest::Context) -> Seq<u8>;

/// The hash function that a digest context computes.
pub uninterp spec fn digest_algorithm(context: digest::Context) -> HashAlgorithm;

/// The hash value of `input`.
pub uninterp spec fn hash_value(algorithm: HashAlgorithm, input: Seq<u8>) -> Seq<u8>;

/// Calls `digest::Context::new`. The new context computes the given hash function
/// and has taken in nothing.
#[verifier::external_body]
pub(crate) fn digest_new(algorithm: HashAlgorithm) -> (r: digest::Context)
    ensures
        digest_algorithm(r) == algorithm,
        digest_input(r) == Seq::<u8>::empty(),
{
    digest::Context::new(
        match algorithm {
            HashAlgorithm::SHA256 => &digest::SHA256,
            HashAlgorithm::SHA384 => &digest::SHA384,
        },
    )
}

/// Calls `digest::Context::update`. The context takes in `data` behind what it
/// has taken in before. It would panic on more than `u64::MAX` bytes in all.
#[verifier::external_body]
pub(crate) fn digest_update(context: &mut digest::Context, data: &[u8])
    requires
        digest_input(*old(context)).len() + data@.len() <= u64::MAX,
    ensures
        digest_algorithm(*final(context)) == digest_algorithm(*old(context)),
        digest_input(*final(context)) == digest_input(*old(context)) + data@,
{
    context.update(data);
}

/// Calls `digest::Context::clone`. The copy computes the same hash function and
/// has taken in the same bytes.
#[verifier::external_body]
pub(crate) fn digest_clone(context: &digest::Context) -> (r: digest::Context)
    ensures
        digest_algorithm(r) == digest_algorithm(*context),
        digest_input(r) == digest_input(*context),
{
    context.clone()
}

/// Calls `digest::Context::finish`. The result is the hash value of what the
/// context has taken in, which does not depend on how it was divided into parts,
/// and has the length that the hash function is defined with.
#[verifier::external_body]
pub(crate) fn digest_finish(context: digest::Context) -> (r: Vec<u8>)
    ensures
        r@ == hash_value(digest_algorithm(context), digest_input(context)),
        r@.len() == digest_algorithm(context).output_size(),
{
    context.finish().as_ref().to_vec()
}

/// A hash value.
#[derive(Debug)]
pub struct Output {
    pub bytes: Vec<u8>,
}

impl View for Output {
    type V = Seq<u8>;

    open spec fn view(&self) -> Seq<u8> {
        self.bytes@
    }
}

impl Output {
    pub fn as_ref(&self) -> (r: &[u8])
        ensures
            r@ == self@,
    {
        self.bytes.as_slice()
    }
}

} // verus!
