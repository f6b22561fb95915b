//! Arithmetic in GF(256) with the QR code's modulus `x^8 + x^4 + x^3 + x^2 + 1`.
use crate::error::{QRError, QRResult};
use vstd::prelude::*;

verus! {

/// Zero is absorbing for multiplication and neutral for addition.
pub proof fn lemma_zero_facts(a: u8)
    by (bit_vector)
    ensures
        gf_mul(a, 0) == 0,
        gf_mul(0, a) == 0,
        a ^ 0 == a,
        0u8 ^ a == a,
{
}

/// Multiplication by `x`, reduced by the modulus.
pub open spec fn xtime(a: u8) -> u8 {
    if a & 0x80 != 0 {
        ((a << 1u8) ^ 0x1du8) as u8
    } else {
        (a << 1u8) as u8
    }
}

/// The product of two field elements: the sum of `a * x^k` over the bits `k` of `b`.
pub open spec fn gf_mul(a: u8, b: u8) -> u8 {
    let a1 = xtime(a);
    let a2 = xtime(a1);
    let a3 = xtime(a2);
    let a4 = xtime(a3);
    let a5 = xtime(a4);
    let a6 = xtime(a5);
    let a7 = xtime(a6);
    (if b & 1 != 0 {
        a
    } else {
        0u8
    }) ^ (if b & 2 != 0 {
        a1
    } else {
        0u8
    }) ^ (if b & 4 != 0 {
        a2
    } else {
        0u8
    }) ^ (if b & 8 != 0 {
        a3
    } else {
        0u8
    }) ^ (if b & 16 != 0 {
        a4
    } else {
        0u8
    }) ^ (if b & 32 != 0 {
        a5
    } else {
        0u8
    }) ^ (if b & 64 != 0 {
        a6
    } else {
        0u8
    }) ^ (if b & 128 != 0 {
        a7
    } else {
        0u8
    })
}

/// `x` to the `n`th power.
pub open spec fn gf_pow(x: u8, n: nat) -> u8
    decreases n,
{
    if n == 0 {
        1
    } else {
        gf_mul(gf_pow(x, (n - 1) as nat), x)
    }
}

/// The value at `x` of the polynomial whose coefficient of `x^i` is `p[i]`, over its first
/// `n` coefficients.
pub open spec fn poly_eval_n(p: Seq<u8>, x: u8, n: nat) -> u8
    decreases n,
{
    if n == 0 {
        0
    } else {
        poly_eval_n(p, x, (n - 1) as nat) ^ gf_mul(p[n - 1], gf_pow(x, (n - 1) as nat))
    }
}

/// The value at `x` of the polynomial whose coefficient of `x^i` is `p[i]`.
pub open spec fn poly_eval(p: Seq<u8>, x: u8) -> u8 {
    poly_eval_n(p, x, p.len())
}

/// Inverses are unique.
pub proof fn lemma_inverse_unique(a: u8, c1: u8, c2: u8)
    requires
        gf_mul(a, c1) == 1,
        gf_mul(a, c2) == 1,
    ensures
        c1 == c2,
{
    assert(gf_mul(a, c1) == 1 && gf_mul(a, c2) == 1 ==> c1 == c2) by (bit_vector);
}

/// The inverse of each non-zero element.
pub open spec fn inverse_of(a: u8) -> u8 {
if a <= 128u8 {
if a <= 64u8 {
if a <= 32u8 {
if a <= 16u8 {
if a <= 8u8 {
if a <= 4u8 {
if a <= 2u8 {
if a <= 1u8 {
1u8
} else {
142u8
}
} else {
if a <= 3u8 {
244u8
} else {
71u8
}
}
} else {
if a <= 6u8 {
if a <= 5u8 {
167u8
} else {
122u8
}
} else {
if a <= 7u8 {
186u8
} else {
173u8
}
}
}
} else {
if a <= 12u8 {
if a <= 10u8 {
if a <= 9u8 {
157u8
} else {
221u8
}
} else {
if a <= 11u8 {
152u8
} else {
61u8
}
}
} else {
if a <= 14u8 {
if a <= 13u8 {
170u8
} else {
93u8
}
} else {
if a <= 15u8 {
150u8
} else {
216u8
}
}
}
}
} else {
if a <= 24u8 {
if a <= 20u8 {
if a <= 18u8 {
if a <= 17u8 {
114u8
} else {
192u8
}
} else {
if a <= 19u8 {
88u8
} else {
224u8
}
}
} else {
if a <= 22u8 {
if a <= 21u8 {
62u8
} else {
76u8
}
} else {
if a <= 23u8 {
102u8
} else {
144u8
}
}
}
} else {
if a <= 28u8 {
if a <= 26u8 {
if a <= 25u8 {
222u8
} else {
85u8
}
} else {
if a <= 27u8 {
128u8
} else {
160u8
}
}
} else {
if a <= 30u8 {
if a <= 29u8 {
131u8
} else {
75u8
}
} else {
if a <= 31u8 {
42u8
} else {
108u8
}
}
}
}
}
} else {
if a <= 48u8 {
if a <= 40u8 {
if a <= 36u8 {
if a <= 34u8 {
if a <= 33u8 {
237u8
} else {
57u8
}
} else {
if a <= 35u8 {
81u8
} else {
96u8
}
}
} else {
if a <= 38u8 {
if a <= 37u8 {
86u8
} else {
44u8
}
} else {
if a <= 39u8 {
138u8
} else {
112u8
}
}
}
} else {
if a <= 44u8 {
if a <= 42u8 {
if a <= 41u8 {
208u8
} else {
31u8
}
} else {
if a <= 43u8 {
74u8
} else {
38u8
}
}
} else {
if a <= 46u8 {
if a <= 45u8 {
139u8
} else {
51u8
}
} else {
if a <= 47u8 {
110u8
} else {
72u8
}
}
}
}
} else {
if a <= 56u8 {
if a <= 52u8 {
if a <= 50u8 {
if a <= 49u8 {
137u8
} else {
111u8
}
} else {
if a <= 51u8 {
46u8
} else {
164u8
}
}
} else {
if a <= 54u8 {
if a <= 53u8 {
195u8
} else {
64u8
}
} else {
if a <= 55u8 {
94u8
} else {
80u8
}
}
}
} else {
if a <= 60u8 {
if a <= 58u8 {
if a <= 57u8 {
34u8
} else {
207u8
}
} else {
if a <= 59u8 {
169u8
} else {
171u8
}
}
} else {
if a <= 62u8 {
if a <= 61u8 {
12u8
} else {
21u8
}
} else {
if a <= 63u8 {
225u8
} else {
54u8
}
}
}
}
}
}
} else {
if a <= 96u8 {
if a <= 80u8 {
if a <= 72u8 {
if a <= 68u8 {
if a <= 66u8 {
if a <= 65u8 {
95u8
} else {
248u8
}
} else {
if a <= 67u8 {
213u8
} else {
146u8
}
}
} else {
if a <= 70u8 {
if a <= 69u8 {
78u8
} else {
166u8
}
} else {
if a <= 71u8 {
4u8
} else {
48u8
}
}
}
} else {
if a <= 76u8 {
if a <= 74u8 {
if a <= 73u8 {
136u8
} else {
43u8
}
} else {
if a <= 75u8 {
30u8
} else {
22u8
}
}
} else {
if a <= 78u8 {
if a <= 77u8 {
103u8
} else {
69u8
}
} else {
if a <= 79u8 {
147u8
} else {
56u8
}
}
}
}
} else {
if a <= 88u8 {
if a <= 84u8 {
if a <= 82u8 {
if a <= 81u8 {
35u8
} else {
104u8
}
} else {
if a <= 83u8 {
140u8
} else {
129u8
}
}
} else {
if a <= 86u8 {
if a <= 85u8 {
26u8
} else {
37u8
}
} else {
if a <= 87u8 {
97u8
} else {
19u8
}
}
}
} else {
if a <= 92u8 {
if a <= 90u8 {
if a <= 89u8 {
193u8
} else {
203u8
}
} else {
if a <= 91u8 {
99u8
} else {
151u8
}
}
} else {
if a <= 94u8 {
if a <= 93u8 {
14u8
} else {
55u8
}
} else {
if a <= 95u8 {
65u8
} else {
36u8
}
}
}
}
}
} else {
if a <= 112u8 {
if a <= 104u8 {
if a <= 100u8 {
if a <= 98u8 {
if a <= 97u8 {
87u8
} else {
202u8
}
} else {
if a <= 99u8 {
91u8
} else {
185u8
}
}
} else {
if a <= 102u8 {
if a <= 101u8 {
196u8
} else {
23u8
}
} else {
if a <= 103u8 {
77u8
} else {
82u8
}
}
}
} else {
if a <= 108u8 {
if a <= 106u8 {
if a <= 105u8 {
141u8
} else {
239u8
}
} else {
if a <= 107u8 {
179u8
} else {
32u8
}
}
} else {
if a <= 110u8 {
if a <= 109u8 {
236u8
} else {
47u8
}
} else {
if a <= 111u8 {
50u8
} else {
40u8
}
}
}
}
} else {
if a <= 120u8 {
if a <= 116u8 {
if a <= 114u8 {
if a <= 113u8 {
209u8
} else {
17u8
}
} else {
if a <= 115u8 {
217u8
} else {
233u8
}
}
} else {
if a <= 118u8 {
if a <= 117u8 {
251u8
} else {
218u8
}
} else {
if a <= 119u8 {
121u8
} else {
219u8
}
}
}
} else {
if a <= 124u8 {
if a <= 122u8 {
if a <= 121u8 {
119u8
} else {
6u8
}
} else {
if a <= 123u8 {
187u8
} else {
132u8
}
}
} else {
if a <= 126u8 {
if a <= 125u8 {
205u8
} else {
254u8
}
} else {
if a <= 127u8 {
252u8
} else {
27u8
}
}
}
}
}
}
}
} else {
if a <= 192u8 {
if a <= 160u8 {
if a <= 144u8 {
if a <= 136u8 {
if a <= 132u8 {
if a <= 130u8 {
if a <= 129u8 {
84u8
} else {
161u8
}
} else {
if a <= 131u8 {
29u8
} else {
124u8
}
}
} else {
if a <= 134u8 {
if a <= 133u8 {
204u8
} else {
228u8
}
} else {
if a <= 135u8 {
176u8
} else {
73u8
}
}
}
} else {
if a <= 140u8 {
if a <= 138u8 {
if a <= 137u8 {
49u8
} else {
39u8
}
} else {
if a <= 139u8 {
45u8
} else {
83u8
}
}
} else {
if a <= 142u8 {
if a <= 141u8 {
105u8
} else {
2u8
}
} else {
if a <= 143u8 {
245u8
} else {
24u8
}
}
}
}
} else {
if a <= 152u8 {
if a <= 148u8 {
if a <= 146u8 {
if a <= 145u8 {
223u8
} else {
68u8
}
} else {
if a <= 147u8 {
79u8
} else {
155u8
}
}
} else {
if a <= 150u8 {
if a <= 149u8 {
188u8
} else {
15u8
}
} else {
if a <= 151u8 {
92u8
} else {
11u8
}
}
}
} else {
if a <= 156u8 {
if a <= 154u8 {
if a <= 153u8 {
220u8
} else {
189u8
}
} else {
if a <= 155u8 {
148u8
} else {
172u8
}
}
} else {
if a <= 158u8 {
if a <= 157u8 {
9u8
} else {
199u8
}
} else {
if a <= 159u8 {
162u8
} else {
28u8
}
}
}
}
}
} else {
if a <= 176u8 {
if a <= 168u8 {
if a <= 164u8 {
if a <= 162u8 {
if a <= 161u8 {
130u8
} else {
159u8
}
} else {
if a <= 163u8 {
198u8
} else {
52u8
}
}
} else {
if a <= 166u8 {
if a <= 165u8 {
194u8
} else {
70u8
}
} else {
if a <= 167u8 {
5u8
} else {
206u8
}
}
}
} else {
if a <= 172u8 {
if a <= 170u8 {
if a <= 169u8 {
59u8
} else {
13u8
}
} else {
if a <= 171u8 {
60u8
} else {
156u8
}
}
} else {
if a <= 174u8 {
if a <= 173u8 {
8u8
} else {
190u8
}
} else {
if a <= 175u8 {
183u8
} else {
135u8
}
}
}
}
} else {
if a <= 184u8 {
if a <= 180u8 {
if a <= 178u8 {
if a <= 177u8 {
229u8
} else {
238u8
}
} else {
if a <= 179u8 {
107u8
} else {
235u8
}
}
} else {
if a <= 182u8 {
if a <= 181u8 {
242u8
} else {
191u8
}
} else {
if a <= 183u8 {
175u8
} else {
197u8
}
}
}
} else {
if a <= 188u8 {
if a <= 186u8 {
if a <= 185u8 {
100u8
} else {
7u8
}
} else {
if a <= 187u8 {
123u8
} else {
149u8
}
}
} else {
if a <= 190u8 {
if a <= 189u8 {
154u8
} else {
174u8
}
} else {
if a <= 191u8 {
182u8
} else {
18u8
}
}
}
}
}
}
} else {
if a <= 224u8 {
if a <= 208u8 {
if a <= 200u8 {
if a <= 196u8 {
if a <= 194u8 {
if a <= 193u8 {
89u8
} else {
165u8
}
} else {
if a <= 195u8 {
53u8
} else {
101u8
}
}
} else {
if a <= 198u8 {
if a <= 197u8 {
184u8
} else {
163u8
}
} else {
if a <= 199u8 {
158u8
} else {
210u8
}
}
}
} else {
if a <= 204u8 {
if a <= 202u8 {
if a <= 201u8 {
247u8
} else {
98u8
}
} else {
if a <= 203u8 {
90u8
} else {
133u8
}
}
} else {
if a <= 206u8 {
if a <= 205u8 {
125u8
} else {
168u8
}
} else {
if a <= 207u8 {
58u8
} else {
41u8
}
}
}
}
} else {
if a <= 216u8 {
if a <= 212u8 {
if a <= 210u8 {
if a <= 209u8 {
113u8
} else {
200u8
}
} else {
if a <= 211u8 {
246u8
} else {
249u8
}
}
} else {
if a <= 214u8 {
if a <= 213u8 {
67u8
} else {
215u8
}
} else {
if a <= 215u8 {
214u8
} else {
16u8
}
}
}
} else {
if a <= 220u8 {
if a <= 218u8 {
if a <= 217u8 {
115u8
} else {
118u8
}
} else {
if a <= 219u8 {
120u8
} else {
153u8
}
}
} else {
if a <= 222u8 {
if a <= 221u8 {
10u8
} else {
25u8
}
} else {
if a <= 223u8 {
145u8
} else {
20u8
}
}
}
}
}
} else {
if a <= 240u8 {
if a <= 232u8 {
if a <= 228u8 {
if a <= 226u8 {
if a <= 225u8 {
63u8
} else {
230u8
}
} else {
if a <= 227u8 {
240u8
} else {
134u8
}
}
} else {
if a <= 230u8 {
if a <= 229u8 {
177u8
} else {
226u8
}
} else {
if a <= 231u8 {
241u8
} else {
250u8
}
}
}
} else {
if a <= 236u8 {
if a <= 234u8 {
if a <= 233u8 {
116u8
} else {
243u8
}
} else {
if a <= 235u8 {
180u8
} else {
109u8
}
}
} else {
if a <= 238u8 {
if a <= 237u8 {
33u8
} else {
178u8
}
} else {
if a <= 239u8 {
106u8
} else {
227u8
}
}
}
}
} else {
if a <= 248u8 {
if a <= 244u8 {
if a <= 242u8 {
if a <= 241u8 {
231u8
} else {
181u8
}
} else {
if a <= 243u8 {
234u8
} else {
3u8
}
}
} else {
if a <= 246u8 {
if a <= 245u8 {
143u8
} else {
211u8
}
} else {
if a <= 247u8 {
201u8
} else {
66u8
}
}
}
} else {
if a <= 252u8 {
if a <= 250u8 {
if a <= 249u8 {
212u8
} else {
232u8
}
} else {
if a <= 251u8 {
117u8
} else {
127u8
}
}
} else {
if a <= 254u8 {
if a <= 253u8 {
255u8
} else {
126u8
}
} else {
253u8
}
}
}
}
}
}
}
}

/// Every non-zero element has an inverse.
pub proof fn lemma_nonzero_invertible(a: u8)
    requires
        a != 0,
    ensures
        gf_mul(a, inverse_of(a)) == 1,
{
    assert(a != 0 ==> gf_mul(a, inverse_of(a)) == 1) by (bit_vector);
}

/// A field element.
#[derive(Debug, PartialEq, Eq, Copy, Clone, Structural)]
pub struct G(pub u8);

impl G {
    /// Multiplication by `x`, reduced by the modulus.
    pub fn xtime(a: u8) -> (r: u8)
        ensures
            r == xtime(a),
    {
        if a & 0x80 != 0 {
            (a << 1u8) ^ 0x1d
        } else {
            a << 1u8
        }
    }

    /// Sum: bitwise exclusive or.
    pub fn add(self, other: G) -> (r: G)
        ensures
            r.0 == self.0 ^ other.0,
    {
        G(self.0 ^ other.0)
    }

    /// Product.
    pub fn mul(self, other: G) -> (r: G)
        ensures
            r.0 == gf_mul(self.0, other.0),
    {
        let a = self.0;
        let b = other.0;
        let a1 = G::xtime(a);
        let a2 = G::xtime(a1);
        let a3 = G::xtime(a2);
        let a4 = G::xtime(a3);
        let a5 = G::xtime(a4);
        let a6 = G::xtime(a5);
        let a7 = G::xtime(a6);
        let t0 = if b & 1 != 0 {
            a
        } else {
            0u8
        };
        let t1 = if b & 2 != 0 {
            a1
        } else {
            0u8
        };
        let t2 = if b & 4 != 0 {
            a2
        } else {
            0u8
        };
        let t3 = if b & 8 != 0 {
            a3
        } else {
            0u8
        };
        let t4 = if b & 16 != 0 {
            a4
        } else {
            0u8
        };
        let t5 = if b & 32 != 0 {
            a5
        } else {
            0u8
        };
        let t6 = if b & 64 != 0 {
            a6
        } else {
            0u8
        };
        let t7 = if b & 128 != 0 {
            a7
        } else {
            0u8
        };
        let r = t0 ^ t1 ^ t2 ^ t3 ^ t4 ^ t5 ^ t6 ^ t7;
        G(r)
    }

    /// The generator `x` (that is, 2) to the `n`th power.
    pub fn gen_pow(n: usize) -> (r: G)
        ensures
            r.0 == gf_pow(2, n as nat),
    {
        let mut r = G(1);
        let mut i: usize = 0;
        while i < n
            invariant
                i <= n,
                r.0 == gf_pow(2, i as nat),
            decreases n - i,
        {
            r = r.mul(G(2));
            i += 1;
        }
        r
    }

    /// The inverse of `self`; zero has none.
    pub fn inverse(self) -> (r: Option<G>)
        ensures
            r == if self.0 != 0 {
                Some(G(inverse_of(self.0)))
            } else {
                None::<G>
            },
    {
        let mut c: u16 = 1;
        while c < 256
            invariant
                1 <= c <= 256,
                forall|d: u8| 1 <= d < c ==> gf_mul(self.0, d) != 1,
            decreases 256 - c,
        {
            if self.mul(G(c as u8)).0 == 1 {
                proof {
                    if self.0 == 0 {
                        let z = c as u8;
                        lemma_zero_facts(z);
                    } else {
                        lemma_nonzero_invertible(self.0);
                        lemma_inverse_unique(self.0, c as u8, inverse_of(self.0));
                    }
                }
                return Some(G(c as u8));
            }
            c += 1;
        }
        proof {
            if self.0 != 0 {
                lemma_nonzero_invertible(self.0);
                let w = inverse_of(self.0);
                if w == 0 {
                    let a = self.0;
                    lemma_zero_facts(a);
                }
                assert(gf_mul(self.0, w) != 1);
            }
        }
        None
    }

    /// Quotient: `self` times the inverse of `other`; division by zero fails.
    pub fn div(self, other: G) -> (r: QRResult<G>)
        ensures
            r == if other.0 != 0 {
                Ok::<G, QRError>(G(gf_mul(self.0, inverse_of(other.0))))
            } else {
                Err::<G, QRError>(QRError::DivisionByZero)
            },
    {
        match other.inverse() {
            Some(inv) => Ok(self.mul(inv)),
            None => Err(QRError::DivisionByZero),
        }
    }
}

} // verus!

verus! {

/// Multiplication in the field distributes over addition, commutes, has one as its unit,
/// and commutes with multiplication by `x`.
#[verifier::rlimit(100)]
pub proof fn lemma_gf_mul_laws(a: u8, b: u8, c: u8)
    by (bit_vector)
    ensures
        gf_mul(a, b ^ c) == gf_mul(a, b) ^ gf_mul(a, c),
        gf_mul(a, b) == gf_mul(b, a),
        gf_mul(a, 1) == a,
        xtime(gf_mul(a, b)) == gf_mul(a, xtime(b)),
{
}

/// Multiplication in the field is associative: multiplying by `x` commutes with
/// multiplying by `a`, and multiplying by `a` distributes over the terms of a product.
pub proof fn lemma_gf_mul_assoc(a: u8, b: u8, c: u8)
    ensures
        gf_mul(gf_mul(a, b), c) == gf_mul(a, gf_mul(b, c)),
{
    let b1 = xtime(b);
    let b2 = xtime(b1);
    let b3 = xtime(b2);
    let b4 = xtime(b3);
    let b5 = xtime(b4);
    let b6 = xtime(b5);
    let b7 = xtime(b6);
    lemma_gf_mul_laws(a, b, 0);
    lemma_gf_mul_laws(a, b1, 0);
    lemma_gf_mul_laws(a, b2, 0);
    lemma_gf_mul_laws(a, b3, 0);
    lemma_gf_mul_laws(a, b4, 0);
    lemma_gf_mul_laws(a, b5, 0);
    lemma_gf_mul_laws(a, b6, 0);
    lemma_zero_facts(a);
    let t0 = if c & 1 != 0 { b } else { 0u8 };
    let t1 = if c & 2 != 0 { b1 } else { 0u8 };
    let t2 = if c & 4 != 0 { b2 } else { 0u8 };
    let t3 = if c & 8 != 0 { b3 } else { 0u8 };
    let t4 = if c & 16 != 0 { b4 } else { 0u8 };
    let t5 = if c & 32 != 0 { b5 } else { 0u8 };
    let t6 = if c & 64 != 0 { b6 } else { 0u8 };
    let t7 = if c & 128 != 0 { b7 } else { 0u8 };
    let s1 = t0 ^ t1;
    let s2 = s1 ^ t2;
    let s3 = s2 ^ t3;
    let s4 = s3 ^ t4;
    let s5 = s4 ^ t5;
    let s6 = s5 ^ t6;
    let s7 = s6 ^ t7;
    assert(gf_mul(b, c) == s7);
    lemma_gf_mul_laws(a, t0, t1);
    lemma_gf_mul_laws(a, s1, t2);
    lemma_gf_mul_laws(a, s2, t3);
    lemma_gf_mul_laws(a, s3, t4);
    lemma_gf_mul_laws(a, s4, t5);
    lemma_gf_mul_laws(a, s5, t6);
    lemma_gf_mul_laws(a, s6, t7);
}


/// Powers add: `x^(a + b) = x^a * x^b`.
pub proof fn lemma_gf_pow_add(x: u8, a: nat, b: nat)
    ensures
        gf_pow(x, a + b) == gf_mul(gf_pow(x, a), gf_pow(x, b)),
    decreases b,
{
    if b == 0 {
        lemma_gf_mul_laws(gf_pow(x, a), 1, 0);
    } else {
        lemma_gf_pow_add(x, a, (b - 1) as nat);
        lemma_gf_mul_assoc(gf_pow(x, a), gf_pow(x, (b - 1) as nat), x);
        assert((a + b - 1) as nat == a + (b - 1) as nat);
    }
}

/// Powers of powers multiply: `(x^a)^b = x^(a * b)`.
pub proof fn lemma_gf_pow_mul(x: u8, a: nat, b: nat)
    ensures
        gf_pow(gf_pow(x, a), b) == gf_pow(x, a * b),
    decreases b,
{
    let y = gf_pow(x, a);
    if b == 0 {
        assert(a * b == 0);
    } else {
        let b1 = (b - 1) as nat;
        let ab1 = a * b1;
        lemma_gf_pow_mul(x, a, b1);
        lemma_gf_pow_add(x, ab1, a);
        assert(ab1 + a == a * b) by (nonlinear_arith)
            requires
                ab1 == a * b1,
                b1 + 1 == b,
        ;
        assert(gf_pow(y, b) == gf_mul(gf_pow(y, b1), y));
        assert(gf_pow(x, ab1 + a) == gf_mul(gf_pow(x, ab1), y));
    }
}

/// Addition in the field: it can be regrouped, and every element is its own negative.
pub proof fn lemma_xor_swap(p: u8, q: u8, r: u8, t: u8)
    by (bit_vector)
    ensures
        (p ^ q) ^ (r ^ t) == (p ^ r) ^ (q ^ t),
        p ^ p == 0u8,
        p ^ q == 0u8 ==> p == q,
        (p ^ q) ^ q == p,
{
}

/// The discrete logarithm to base `2`, the generator: `gf_pow(2, gf_log(a)) == a` for every
/// non-zero `a`; zero, which has none, maps to 255.
pub open spec fn gf_log(a: u8) -> u8 {
if a <= 127u8 {
if a <= 63u8 {
if a <= 31u8 {
if a <= 15u8 {
if a <= 7u8 {
if a <= 3u8 {
if a <= 1u8 {
if a <= 0u8 {
255u8
} else {
0u8
}
} else {
if a <= 2u8 {
1u8
} else {
25u8
}
}
} else {
if a <= 5u8 {
if a <= 4u8 {
2u8
} else {
50u8
}
} else {
if a <= 6u8 {
26u8
} else {
198u8
}
}
}
} else {
if a <= 11u8 {
if a <= 9u8 {
if a <= 8u8 {
3u8
} else {
223u8
}
} else {
if a <= 10u8 {
51u8
} else {
238u8
}
}
} else {
if a <= 13u8 {
if a <= 12u8 {
27u8
} else {
104u8
}
} else {
if a <= 14u8 {
199u8
} else {
75u8
}
}
}
}
} else {
if a <= 23u8 {
if a <= 19u8 {
if a <= 17u8 {
if a <= 16u8 {
4u8
} else {
100u8
}
} else {
if a <= 18u8 {
224u8
} else {
14u8
}
}
} else {
if a <= 21u8 {
if a <= 20u8 {
52u8
} else {
141u8
}
} else {
if a <= 22u8 {
239u8
} else {
129u8
}
}
}
} else {
if a <= 27u8 {
if a <= 25u8 {
if a <= 24u8 {
28u8
} else {
193u8
}
} else {
if a <= 26u8 {
105u8
} else {
248u8
}
}
} else {
if a <= 29u8 {
if a <= 28u8 {
200u8
} else {
8u8
}
} else {
if a <= 30u8 {
76u8
} else {
113u8
}
}
}
}
}
} else {
if a <= 47u8 {
if a <= 39u8 {
if a <= 35u8 {
if a <= 33u8 {
if a <= 32u8 {
5u8
} else {
138u8
}
} else {
if a <= 34u8 {
101u8
} else {
47u8
}
}
} else {
if a <= 37u8 {
if a <= 36u8 {
225u8
} else {
36u8
}
} else {
if a <= 38u8 {
15u8
} else {
33u8
}
}
}
} else {
if a <= 43u8 {
if a <= 41u8 {
if a <= 40u8 {
53u8
} else {
147u8
}
} else {
if a <= 42u8 {
142u8
} else {
218u8
}
}
} else {
if a <= 45u8 {
if a <= 44u8 {
240u8
} else {
18u8
}
} else {
if a <= 46u8 {
130u8
} else {
69u8
}
}
}
}
} else {
if a <= 55u8 {
if a <= 51u8 {
if a <= 49u8 {
if a <= 48u8 {
29u8
} else {
181u8
}
} else {
if a <= 50u8 {
194u8
} else {
125u8
}
}
} else {
if a <= 53u8 {
if a <= 52u8 {
106u8
} else {
39u8
}
} else {
if a <= 54u8 {
249u8
} else {
185u8
}
}
}
} else {
if a <= 59u8 {
if a <= 57u8 {
if a <= 56u8 {
201u8
} else {
154u8
}
} else {
if a <= 58u8 {
9u8
} else {
120u8
}
}
} else {
if a <= 61u8 {
if a <= 60u8 {
77u8
} else {
228u8
}
} else {
if a <= 62u8 {
114u8
} else {
166u8
}
}
}
}
}
}
} else {
if a <= 95u8 {
if a <= 79u8 {
if a <= 71u8 {
if a <= 67u8 {
if a <= 65u8 {
if a <= 64u8 {
6u8
} else {
191u8
}
} else {
if a <= 66u8 {
139u8
} else {
98u8
}
}
} else {
if a <= 69u8 {
if a <= 68u8 {
102u8
} else {
221u8
}
} else {
if a <= 70u8 {
48u8
} else {
253u8
}
}
}
} else {
if a <= 75u8 {
if a <= 73u8 {
if a <= 72u8 {
226u8
} else {
152u8
}
} else {
if a <= 74u8 {
37u8
} else {
179u8
}
}
} else {
if a <= 77u8 {
if a <= 76u8 {
16u8
} else {
145u8
}
} else {
if a <= 78u8 {
34u8
} else {
136u8
}
}
}
}
} else {
if a <= 87u8 {
if a <= 83u8 {
if a <= 81u8 {
if a <= 80u8 {
54u8
} else {
208u8
}
} else {
if a <= 82u8 {
148u8
} else {
206u8
}
}
} else {
if a <= 85u8 {
if a <= 84u8 {
143u8
} else {
150u8
}
} else {
if a <= 86u8 {
219u8
} else {
189u8
}
}
}
} else {
if a <= 91u8 {
if a <= 89u8 {
if a <= 88u8 {
241u8
} else {
210u8
}
} else {
if a <= 90u8 {
19u8
} else {
92u8
}
}
} else {
if a <= 93u8 {
if a <= 92u8 {
131u8
} else {
56u8
}
} else {
if a <= 94u8 {
70u8
} else {
64u8
}
}
}
}
}
} else {
if a <= 111u8 {
if a <= 103u8 {
if a <= 99u8 {
if a <= 97u8 {
if a <= 96u8 {
30u8
} else {
66u8
}
} else {
if a <= 98u8 {
182u8
} else {
163u8
}
}
} else {
if a <= 101u8 {
if a <= 100u8 {
195u8
} else {
72u8
}
} else {
if a <= 102u8 {
126u8
} else {
110u8
}
}
}
} else {
if a <= 107u8 {
if a <= 105u8 {
if a <= 104u8 {
107u8
} else {
58u8
}
} else {
if a <= 106u8 {
40u8
} else {
84u8
}
}
} else {
if a <= 109u8 {
if a <= 108u8 {
250u8
} else {
133u8
}
} else {
if a <= 110u8 {
186u8
} else {
61u8
}
}
}
}
} else {
if a <= 119u8 {
if a <= 115u8 {
if a <= 113u8 {
if a <= 112u8 {
202u8
} else {
94u8
}
} else {
if a <= 114u8 {
155u8
} else {
159u8
}
}
} else {
if a <= 117u8 {
if a <= 116u8 {
10u8
} else {
21u8
}
} else {
if a <= 118u8 {
121u8
} else {
43u8
}
}
}
} else {
if a <= 123u8 {
if a <= 121u8 {
if a <= 120u8 {
78u8
} else {
212u8
}
} else {
if a <= 122u8 {
229u8
} else {
172u8
}
}
} else {
if a <= 125u8 {
if a <= 124u8 {
115u8
} else {
243u8
}
} else {
if a <= 126u8 {
167u8
} else {
87u8
}
}
}
}
}
}
}
} else {
if a <= 191u8 {
if a <= 159u8 {
if a <= 143u8 {
if a <= 135u8 {
if a <= 131u8 {
if a <= 129u8 {
if a <= 128u8 {
7u8
} else {
112u8
}
} else {
if a <= 130u8 {
192u8
} else {
247u8
}
}
} else {
if a <= 133u8 {
if a <= 132u8 {
140u8
} else {
128u8
}
} else {
if a <= 134u8 {
99u8
} else {
13u8
}
}
}
} else {
if a <= 139u8 {
if a <= 137u8 {
if a <= 136u8 {
103u8
} else {
74u8
}
} else {
if a <= 138u8 {
222u8
} else {
237u8
}
}
} else {
if a <= 141u8 {
if a <= 140u8 {
49u8
} else {
197u8
}
} else {
if a <= 142u8 {
254u8
} else {
24u8
}
}
}
}
} else {
if a <= 151u8 {
if a <= 147u8 {
if a <= 145u8 {
if a <= 144u8 {
227u8
} else {
165u8
}
} else {
if a <= 146u8 {
153u8
} else {
119u8
}
}
} else {
if a <= 149u8 {
if a <= 148u8 {
38u8
} else {
184u8
}
} else {
if a <= 150u8 {
180u8
} else {
124u8
}
}
}
} else {
if a <= 155u8 {
if a <= 153u8 {
if a <= 152u8 {
17u8
} else {
68u8
}
} else {
if a <= 154u8 {
146u8
} else {
217u8
}
}
} else {
if a <= 157u8 {
if a <= 156u8 {
35u8
} else {
32u8
}
} else {
if a <= 158u8 {
137u8
} else {
46u8
}
}
}
}
}
} else {
if a <= 175u8 {
if a <= 167u8 {
if a <= 163u8 {
if a <= 161u8 {
if a <= 160u8 {
55u8
} else {
63u8
}
} else {
if a <= 162u8 {
209u8
} else {
91u8
}
}
} else {
if a <= 165u8 {
if a <= 164u8 {
149u8
} else {
188u8
}
} else {
if a <= 166u8 {
207u8
} else {
205u8
}
}
}
} else {
if a <= 171u8 {
if a <= 169u8 {
if a <= 168u8 {
144u8
} else {
135u8
}
} else {
if a <= 170u8 {
151u8
} else {
178u8
}
}
} else {
if a <= 173u8 {
if a <= 172u8 {
220u8
} else {
252u8
}
} else {
if a <= 174u8 {
190u8
} else {
97u8
}
}
}
}
} else {
if a <= 183u8 {
if a <= 179u8 {
if a <= 177u8 {
if a <= 176u8 {
242u8
} else {
86u8
}
} else {
if a <= 178u8 {
211u8
} else {
171u8
}
}
} else {
if a <= 181u8 {
if a <= 180u8 {
20u8
} else {
42u8
}
} else {
if a <= 182u8 {
93u8
} else {
158u8
}
}
}
} else {
if a <= 187u8 {
if a <= 185u8 {
if a <= 184u8 {
132u8
} else {
60u8
}
} else {
if a <= 186u8 {
57u8
} else {
83u8
}
}
} else {
if a <= 189u8 {
if a <= 188u8 {
71u8
} else {
109u8
}
} else {
if a <= 190u8 {
65u8
} else {
162u8
}
}
}
}
}
}
} else {
if a <= 223u8 {
if a <= 207u8 {
if a <= 199u8 {
if a <= 195u8 {
if a <= 193u8 {
if a <= 192u8 {
31u8
} else {
45u8
}
} else {
if a <= 194u8 {
67u8
} else {
216u8
}
}
} else {
if a <= 197u8 {
if a <= 196u8 {
183u8
} else {
123u8
}
} else {
if a <= 198u8 {
164u8
} else {
118u8
}
}
}
} else {
if a <= 203u8 {
if a <= 201u8 {
if a <= 200u8 {
196u8
} else {
23u8
}
} else {
if a <= 202u8 {
73u8
} else {
236u8
}
}
} else {
if a <= 205u8 {
if a <= 204u8 {
127u8
} else {
12u8
}
} else {
if a <= 206u8 {
111u8
} else {
246u8
}
}
}
}
} else {
if a <= 215u8 {
if a <= 211u8 {
if a <= 209u8 {
if a <= 208u8 {
108u8
} else {
161u8
}
} else {
if a <= 210u8 {
59u8
} else {
82u8
}
}
} else {
if a <= 213u8 {
if a <= 212u8 {
41u8
} else {
157u8
}
} else {
if a <= 214u8 {
85u8
} else {
170u8
}
}
}
} else {
if a <= 219u8 {
if a <= 217u8 {
if a <= 216u8 {
251u8
} else {
96u8
}
} else {
if a <= 218u8 {
134u8
} else {
177u8
}
}
} else {
if a <= 221u8 {
if a <= 220u8 {
187u8
} else {
204u8
}
} else {
if a <= 222u8 {
62u8
} else {
90u8
}
}
}
}
}
} else {
if a <= 239u8 {
if a <= 231u8 {
if a <= 227u8 {
if a <= 225u8 {
if a <= 224u8 {
203u8
} else {
89u8
}
} else {
if a <= 226u8 {
95u8
} else {
176u8
}
}
} else {
if a <= 229u8 {
if a <= 228u8 {
156u8
} else {
169u8
}
} else {
if a <= 230u8 {
160u8
} else {
81u8
}
}
}
} else {
if a <= 235u8 {
if a <= 233u8 {
if a <= 232u8 {
11u8
} else {
245u8
}
} else {
if a <= 234u8 {
22u8
} else {
235u8
}
}
} else {
if a <= 237u8 {
if a <= 236u8 {
122u8
} else {
117u8
}
} else {
if a <= 238u8 {
44u8
} else {
215u8
}
}
}
}
} else {
if a <= 247u8 {
if a <= 243u8 {
if a <= 241u8 {
if a <= 240u8 {
79u8
} else {
174u8
}
} else {
if a <= 242u8 {
213u8
} else {
233u8
}
}
} else {
if a <= 245u8 {
if a <= 244u8 {
230u8
} else {
231u8
}
} else {
if a <= 246u8 {
173u8
} else {
232u8
}
}
}
} else {
if a <= 251u8 {
if a <= 249u8 {
if a <= 248u8 {
116u8
} else {
214u8
}
} else {
if a <= 250u8 {
244u8
} else {
234u8
}
}
} else {
if a <= 253u8 {
if a <= 252u8 {
168u8
} else {
80u8
}
} else {
if a <= 254u8 {
88u8
} else {
175u8
}
}
}
}
}
}
}
}
}

/// One step of the generator's powers: multiplying by `2` raises the logarithm by one, and
/// the power after 254 is one again.
proof fn lemma_log_step(y: u8)
    by (bit_vector)
    ensures
        gf_log(1) == 0,
        gf_log(0) == 255,
        y != 0 && gf_log(y) < 254 ==> gf_log(gf_mul(y, 2)) == gf_log(y) + 1,
        y != 0 && gf_log(y) == 254 ==> gf_mul(y, 2) == 1,
{
}

/// The generator's first 255 powers are non-zero and have their exponents as logarithms.
pub proof fn lemma_gen_pow_log(k: nat)
    requires
        k < 255,
    ensures
        gf_pow(2, k) != 0,
        gf_log(gf_pow(2, k)) == k,
    decreases k,
{
    lemma_log_step(1);
    if k > 0 {
        lemma_gen_pow_log((k - 1) as nat);
        lemma_log_step(gf_pow(2, (k - 1) as nat));
    }
}

/// The generator has order 255: its powers below 510 equal one exactly at 0 and 255.
pub proof fn lemma_gen_order(k: nat)
    requires
        k < 510,
    ensures
        gf_pow(2, k) == 1 <==> (k == 0 || k == 255),
{
    lemma_log_step(1);
    lemma_gen_pow_log(254);
    lemma_log_step(gf_pow(2, 254));
    assert(gf_pow(2, 255) == 1);
    if k < 255 {
        lemma_gen_pow_log(k);
    } else {
        lemma_gf_pow_add(2, 255, (k - 255) as nat);
        lemma_gf_mul_laws(gf_pow(2, (k - 255) as nat), 1, 0);
        lemma_gf_mul_laws(1, gf_pow(2, (k - 255) as nat), 0);
        assert(255 + (k - 255) as nat == k);
        lemma_gen_pow_log((k - 255) as nat);
    }
}

} // verus!
