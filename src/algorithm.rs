use vstd::prelude::*;

verus! {

/// A transform of sequences of a fixed length, such as a discrete Fourier
/// transform of that length. Each implementation states, through `transform`,
/// which sequence it computes for a given input.
///
/// The spec methods have defaults under which an implementation promises
/// nothing: `well_formed` is false, so no verified caller can run it. A
/// verified implementation overrides all three.
pub trait FFTAlgorithm<T>: Sized {
    /// The length of the sequences this transform consumes and produces.
    open spec fn spec_len(&self) -> nat {
        0
    }

    /// The internal state that `process` relies on is consistent.
    open spec fn well_formed(&self) -> bool {
        false
    }

    /// The sequence that `process` writes for the input `signal`.
    open spec fn transform(&self, signal: Seq<T>) -> Seq<T> {
        Seq::empty()
    }

    /// Runs the transform on `signal`, placing the result in `spectrum`.
    fn process(&mut self, signal: &[T], spectrum: &mut [T])
        requires
            old(self).well_formed(),
            signal@.len() == old(self).spec_len(),
            old(spectrum)@.len() == old(self).spec_len(),
        ensures
            final(self).well_formed(),
            final(self).spec_len() == old(self).spec_len(),
            forall|s: Seq<T>| #[trigger] final(self).transform(s) == old(self).transform(s),
            final(spectrum)@.len() == old(spectrum)@.len(),
            final(spectrum)@ == old(self).transform(signal@),
    ;
}

/// `s` read as consecutive rows of `len` elements, each row replaced by what
/// `f` computes for it.
pub open spec fn rows_transformed<T, F: FFTAlgorithm<T>>(f: F, s: Seq<T>, len: nat) -> Seq<T>
    decreases s.len(),
{
    if len == 0 || s.len() < len {
        Seq::empty()
    } else {
        f.transform(s.take(len as int)) + rows_transformed(f, s.skip(len as int), len)
    }
}

/// Two transforms that agree on every input agree row by row.
pub proof fn lemma_rows_transformed_agree<T, F: FFTAlgorithm<T>>(f: F, g: F, s: Seq<T>, len: nat)
    requires
        forall|t: Seq<T>| #[trigger] f.transform(t) == g.transform(t),
    ensures
        rows_transformed(f, s, len) == rows_transformed(g, s, len),
    decreases s.len(),
{
    if len > 0 && s.len() >= len {
        lemma_rows_transformed_agree(f, g, s.skip(len as int), len);
    }
}

/// Runs `f` on each consecutive row of `len` elements of `signal`, writing
/// each result into the matching row of `spectrum`.
pub fn process_rows<T, F: FFTAlgorithm<T>>(f: &mut F, len: usize, signal: &[T], spectrum: &mut [T])
    requires
        old(f).well_formed(),
        len > 0,
        old(f).spec_len() == len,
        signal@.len() == old(spectrum)@.len(),
        signal@.len() % (len as nat) == 0,
    ensures
        final(f).well_formed(),
        final(f).spec_len() == old(f).spec_len(),
        forall|s: Seq<T>| #[trigger] final(f).transform(s) == old(f).transform(s),
        final(spectrum)@.len() == old(spectrum)@.len(),
        final(spectrum)@ == rows_transformed(*old(f), signal@, len as nat),
    decreases signal@.len(),
{
    if signal.len() == 0 {
        return;
    }
    proof {
        if signal@.len() < len {
            vstd::arithmetic::div_mod::lemma_small_mod(signal@.len() as nat, len as nat);
        }
        vstd::arithmetic::div_mod::lemma_mod_sub_multiples_vanish(signal@.len() as int, len as int);
    }
    let ghost f0 = *f;
    let ghost signal_seq = signal@;
    let (signal_head, signal_tail) = signal.split_at(len);
    let (spectrum_head, spectrum_tail) = spectrum.split_at_mut(len);
    f.process(signal_head, spectrum_head);
    let ghost f1 = *f;
    process_rows(f, len, signal_tail, spectrum_tail);
    proof {
        lemma_rows_transformed_agree(f1, f0, signal_seq.skip(len as int), len as nat);
    }
}

} // verus!
