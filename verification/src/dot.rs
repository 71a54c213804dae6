//! DOT text for the graph: primary inputs as triangles, outputs as
//! inverse triangles, AND nodes as plain records, inverting edges in blue.
//! The text is a development aid; nothing downstream depends on it.

use vstd::prelude::*;

use crate::aig::AIG;
use vstd::string::StringSliceAdditionalSpecFns;

verus! {

/// The decimal digits of `n`, most significant first.
pub open spec fn dec_rep(n: nat) -> Seq<u8>
    decreases n,
{
    if n < 10 {
        seq![(48 + n) as u8]
    } else {
        dec_rep(n / 10).push((48 + n % 10) as u8)
    }
}

/// Renders a number in decimal; the bytes are exactly [`dec_rep`].
pub fn u64_dec(n: u64) -> (r: Vec<u8>)
    ensures
        r@ == dec_rep(n as nat),
    decreases n,
{
    if n < 10 {
        let d: u8 = 48 + (n as u8);
        vec![d]
    } else {
        let mut v = u64_dec(n / 10);
        let d: u8 = 48 + ((n % 10) as u8);
        v.push(d);
        v
    }
}

/// Appends a byte slice to the output buffer.
fn append_bytes(out: &mut Vec<u8>, s: &[u8])
    ensures
        final(out)@ == old(out)@ + s@,
{
    let mut i: usize = 0;
    while i < s.len()
        invariant
            i <= s@.len(),
            out@ == old(out)@ + s@.take(i as int),
        decreases s@.len() - i,
    {
        out.push(s[i]);
        proof {
            assert(old(out)@ + s@.take(i + 1 as int) =~= (old(out)@ + s@.take(i as int)).push(
                s@[i as int],
            ));
        }
        i = i + 1;
    }
    proof {
        assert(s@.take(s@.len() as int) =~= s@);
    }
}

/// Appends a string's bytes to the output buffer.
fn append_str(out: &mut Vec<u8>, s: &str)
    ensures
        final(out)@ == old(out)@ + s.spec_bytes(),
{
    append_bytes(out, s.as_bytes());
}

impl AIG {
    /// The DOT text of the graph, with one extra label line per node
    /// supplied by the caller. Pure presentation: the bytes carry no
    /// meaning the contracts elsewhere rely on.
    pub fn dot_bytes(&self, name: &str, labels: &Vec<Vec<u8>>) -> (r: Vec<u8>)
        requires
            self.wf(),
            labels@.len() == self.nodes@.len(),
    {
        let n_nodes = self.nodes.len();
        let n_pis = self.pi.len();
        let mut out: Vec<u8> = Vec::new();
        append_str(&mut out, "digraph ");
        append_str(&mut out, name);
        append_str(&mut out, " {\n");
        let mut i: usize = 0;
        while i < self.pi.len()
            invariant
                self.wf(),
                self.pi@.len() <= usize::MAX,
                self.nodes@.len() <= usize::MAX,
            decreases self.pi@.len() - i,
        {
            append_str(&mut out, "pi");
            let d = u64_dec(i as u64);
            append_bytes(&mut out, d.as_slice());
            append_str(&mut out, " [shape=triangle label=\"");
            append_str(&mut out, self.pi[i].as_str());
            append_str(&mut out, "\nPI");
            let d2 = u64_dec(i as u64);
            append_bytes(&mut out, d2.as_slice());
            append_str(&mut out, "\"];\n");
            i = i + 1;
        }
        let mut p: usize = 0;
        while p < self.po.len()
            invariant
                self.wf(),
                self.pi@.len() <= usize::MAX,
                self.nodes@.len() <= usize::MAX,
            decreases self.po@.len() - p,
        {
            append_str(&mut out, self.po[p].0.as_str());
            append_str(&mut out, " [shape=invtriangle label=\"");
            append_str(&mut out, self.po[p].0.as_str());
            append_str(&mut out, "\nPO\"];\n");
            append_str(&mut out, self.po[p].0.as_str());
            append_str(&mut out, " -> ");
            let r = self.po[p].1;
            proof {
                assert(crate::aig::ref_ok(
                    self.po@[p as int].1,
                    self.nodes@.len() as int,
                    self.pi@.len() as int,
                ));
            }
            if r.is_pi() {
                append_str(&mut out, "pi");
                let d = u64_dec(r.pi_idx() as u64);
                append_bytes(&mut out, d.as_slice());
            } else {
                let d = u64_dec(r.idx() as u64);
                append_bytes(&mut out, d.as_slice());
            }
            if r.is_invert() {
                append_str(&mut out, " [color=blue];\n");
            } else {
                append_str(&mut out, "\n");
            }
            p = p + 1;
        }
        let mut j: usize = 0;
        while j < self.nodes.len()
            invariant
                self.wf(),
                self.pi@.len() <= usize::MAX,
                self.nodes@.len() <= usize::MAX,
                labels@.len() == self.nodes@.len(),
            decreases self.nodes@.len() - j,
        {
            let d = u64_dec(j as u64);
            append_bytes(&mut out, d.as_slice());
            append_str(&mut out, " [label=\"");
            append_str(&mut out, self.nodes[j].name.as_str());
            append_str(&mut out, "\nidx=");
            append_bytes(&mut out, d.as_slice());
            append_str(&mut out, "\n");
            append_bytes(&mut out, labels[j].as_slice());
            append_str(&mut out, "\"];\n");
            let f0 = self.nodes[j].inp0;
            let f1 = self.nodes[j].inp1;
            proof {
                assert(crate::aig::fanin_ok(
                    self.nodes@[j as int].inp0,
                    j as int,
                    self.pi@.len() as int,
                ));
                assert(crate::aig::fanin_ok(
                    self.nodes@[j as int].inp1,
                    j as int,
                    self.pi@.len() as int,
                ));
            }
            append_bytes(&mut out, d.as_slice());
            append_str(&mut out, " -> ");
            if f0.is_pi() {
                append_str(&mut out, "pi");
                let e = u64_dec(f0.pi_idx() as u64);
                append_bytes(&mut out, e.as_slice());
            } else {
                let e = u64_dec(f0.idx() as u64);
                append_bytes(&mut out, e.as_slice());
            }
            if f0.is_invert() {
                append_str(&mut out, " [color=blue];\n");
            } else {
                append_str(&mut out, "\n");
            }
            append_bytes(&mut out, d.as_slice());
            append_str(&mut out, " -> ");
            if f1.is_pi() {
                append_str(&mut out, "pi");
                let e = u64_dec(f1.pi_idx() as u64);
                append_bytes(&mut out, e.as_slice());
            } else {
                let e = u64_dec(f1.idx() as u64);
                append_bytes(&mut out, e.as_slice());
            }
            if f1.is_invert() {
                append_str(&mut out, " [color=blue];\n");
            } else {
                append_str(&mut out, "\n");
            }
            j = j + 1;
        }
        append_str(&mut out, "}\n");
        out
    }
}

} // verus!
