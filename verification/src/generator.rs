use vstd::prelude::*;

pub mod table;

verus! {

/// One multiplication by the generator {02} of GF(2^8): double the byte and,
/// if the high bit was set, reduce by the polynomial x^8 + x^4 + x^3 + x^2 + 1
/// (an XOR with 0x1d after the doubled byte drops its ninth bit).
/// Written over plain integer arithmetic so that the solver can evaluate it.
pub open spec fn gstep(b: u8) -> u8 {
    if b < 128 {
        (2 * b) as u8
    } else {
        (2 * (b as int) - 256 + 1
            + (if ((2 * (b as int) - 256) / 4) % 2 == 0 { 4int } else { -4 })
            + (if ((2 * (b as int) - 256) / 8) % 2 == 0 { 8int } else { -8 })
            + (if ((2 * (b as int) - 256) / 16) % 2 == 0 { 16int } else { -16 })) as u8
    }
}

/// The byte b multiplied by g^k.
pub open spec fn powstep(k: nat, b: u8) -> u8
    decreases k,
{
    if k == 0 { b } else { gstep(powstep((k - 1) as nat, b)) }
}

/// g^k as a byte.
pub open spec fn gpow(k: nat) -> u8 {
    powstep(k, 1)
}

/// The antilog table of GF(2^8): antilog_val(n) = g^n for n in [0, 255).
#[verifier::opaque]
pub open spec fn antilog_val(x: int) -> u8 {
    if x == 0 { 1 } else if x == 1 { 2 } else if x == 2 { 4 } else if x == 3 { 8 } else if x == 4 { 16 } else if x == 5 { 32 } else if x == 6 { 64 } else if x == 7 { 128 } else if x == 8 { 29 } else if x == 9 { 58 } else if x == 10 { 116 } else if x == 11 { 232 } else if x == 12 { 205 } else if x == 13 { 135 } else if x == 14 { 19 } else if x == 15 { 38 } else if x == 16 { 76 } else if x == 17 { 152 } else if x == 18 { 45 } else if x == 19 { 90 } else if x == 20 { 180 } else if x == 21 { 117 } else if x == 22 { 234 } else if x == 23 { 201 } else if x == 24 { 143 } else if x == 25 { 3 } else if x == 26 { 6 } else if x == 27 { 12 } else if x == 28 { 24 } else if x == 29 { 48 } else if x == 30 { 96 } else if x == 31 { 192 } else if x == 32 { 157 } else if x == 33 { 39 } else if x == 34 { 78 } else if x == 35 { 156 } else if x == 36 { 37 } else if x == 37 { 74 } else if x == 38 { 148 } else if x == 39 { 53 } else if x == 40 { 106 } else if x == 41 { 212 } else if x == 42 { 181 } else if x == 43 { 119 } else if x == 44 { 238 } else if x == 45 { 193 } else if x == 46 { 159 } else if x == 47 { 35 } else if x == 48 { 70 } else if x == 49 { 140 } else if x == 50 { 5 } else if x == 51 { 10 } else if x == 52 { 20 } else if x == 53 { 40 } else if x == 54 { 80 } else if x == 55 { 160 } else if x == 56 { 93 } else if x == 57 { 186 } else if x == 58 { 105 } else if x == 59 { 210 } else if x == 60 { 185 } else if x == 61 { 111 } else if x == 62 { 222 } else if x == 63 { 161 } else if x == 64 { 95 } else if x == 65 { 190 } else if x == 66 { 97 } else if x == 67 { 194 } else if x == 68 { 153 } else if x == 69 { 47 } else if x == 70 { 94 } else if x == 71 { 188 } else if x == 72 { 101 } else if x == 73 { 202 } else if x == 74 { 137 } else if x == 75 { 15 } else if x == 76 { 30 } else if x == 77 { 60 } else if x == 78 { 120 } else if x == 79 { 240 } else if x == 80 { 253 } else if x == 81 { 231 } else if x == 82 { 211 } else if x == 83 { 187 } else if x == 84 { 107 } else if x == 85 { 214 } else if x == 86 { 177 } else if x == 87 { 127 } else if x == 88 { 254 } else if x == 89 { 225 } else if x == 90 { 223 } else if x == 91 { 163 } else if x == 92 { 91 } else if x == 93 { 182 } else if x == 94 { 113 } else if x == 95 { 226 } else if x == 96 { 217 } else if x == 97 { 175 } else if x == 98 { 67 } else if x == 99 { 134 } else if x == 100 { 17 } else if x == 101 { 34 } else if x == 102 { 68 } else if x == 103 { 136 } else if x == 104 { 13 } else if x == 105 { 26 } else if x == 106 { 52 } else if x == 107 { 104 } else if x == 108 { 208 } else if x == 109 { 189 } else if x == 110 { 103 } else if x == 111 { 206 } else if x == 112 { 129 } else if x == 113 { 31 } else if x == 114 { 62 } else if x == 115 { 124 } else if x == 116 { 248 } else if x == 117 { 237 } else if x == 118 { 199 } else if x == 119 { 147 } else if x == 120 { 59 } else if x == 121 { 118 } else if x == 122 { 236 } else if x == 123 { 197 } else if x == 124 { 151 } else if x == 125 { 51 } else if x == 126 { 102 } else if x == 127 { 204 } else if x == 128 { 133 } else if x == 129 { 23 } else if x == 130 { 46 } else if x == 131 { 92 } else if x == 132 { 184 } else if x == 133 { 109 } else if x == 134 { 218 } else if x == 135 { 169 } else if x == 136 { 79 } else if x == 137 { 158 } else if x == 138 { 33 } else if x == 139 { 66 } else if x == 140 { 132 } else if x == 141 { 21 } else if x == 142 { 42 } else if x == 143 { 84 } else if x == 144 { 168 } else if x == 145 { 77 } else if x == 146 { 154 } else if x == 147 { 41 } else if x == 148 { 82 } else if x == 149 { 164 } else if x == 150 { 85 } else if x == 151 { 170 } else if x == 152 { 73 } else if x == 153 { 146 } else if x == 154 { 57 } else if x == 155 { 114 } else if x == 156 { 228 } else if x == 157 { 213 } else if x == 158 { 183 } else if x == 159 { 115 } else if x == 160 { 230 } else if x == 161 { 209 } else if x == 162 { 191 } else if x == 163 { 99 } else if x == 164 { 198 } else if x == 165 { 145 } else if x == 166 { 63 } else if x == 167 { 126 } else if x == 168 { 252 } else if x == 169 { 229 } else if x == 170 { 215 } else if x == 171 { 179 } else if x == 172 { 123 } else if x == 173 { 246 } else if x == 174 { 241 } else if x == 175 { 255 } else if x == 176 { 227 } else if x == 177 { 219 } else if x == 178 { 171 } else if x == 179 { 75 } else if x == 180 { 150 } else if x == 181 { 49 } else if x == 182 { 98 } else if x == 183 { 196 } else if x == 184 { 149 } else if x == 185 { 55 } else if x == 186 { 110 } else if x == 187 { 220 } else if x == 188 { 165 } else if x == 189 { 87 } else if x == 190 { 174 } else if x == 191 { 65 } else if x == 192 { 130 } else if x == 193 { 25 } else if x == 194 { 50 } else if x == 195 { 100 } else if x == 196 { 200 } else if x == 197 { 141 } else if x == 198 { 7 } else if x == 199 { 14 } else if x == 200 { 28 } else if x == 201 { 56 } else if x == 202 { 112 } else if x == 203 { 224 } else if x == 204 { 221 } else if x == 205 { 167 } else if x == 206 { 83 } else if x == 207 { 166 } else if x == 208 { 81 } else if x == 209 { 162 } else if x == 210 { 89 } else if x == 211 { 178 } else if x == 212 { 121 } else if x == 213 { 242 } else if x == 214 { 249 } else if x == 215 { 239 } else if x == 216 { 195 } else if x == 217 { 155 } else if x == 218 { 43 } else if x == 219 { 86 } else if x == 220 { 172 } else if x == 221 { 69 } else if x == 222 { 138 } else if x == 223 { 9 } else if x == 224 { 18 } else if x == 225 { 36 } else if x == 226 { 72 } else if x == 227 { 144 } else if x == 228 { 61 } else if x == 229 { 122 } else if x == 230 { 244 } else if x == 231 { 245 } else if x == 232 { 247 } else if x == 233 { 243 } else if x == 234 { 251 } else if x == 235 { 235 } else if x == 236 { 203 } else if x == 237 { 139 } else if x == 238 { 11 } else if x == 239 { 22 } else if x == 240 { 44 } else if x == 241 { 88 } else if x == 242 { 176 } else if x == 243 { 125 } else if x == 244 { 250 } else if x == 245 { 233 } else if x == 246 { 207 } else if x == 247 { 131 } else if x == 248 { 27 } else if x == 249 { 54 } else if x == 250 { 108 } else if x == 251 { 216 } else if x == 252 { 173 } else if x == 253 { 71 } else if x == 254 { 142 } else { 0 }
}

/// The log table of GF(2^8): the unique n in [0, 255) with g^n = v, for v in [1, 256).
#[verifier::opaque]
pub open spec fn log_val(x: int) -> int {
    if x == 1 { 0 } else if x == 2 { 1 } else if x == 3 { 25 } else if x == 4 { 2 } else if x == 5 { 50 } else if x == 6 { 26 } else if x == 7 { 198 } else if x == 8 { 3 } else if x == 9 { 223 } else if x == 10 { 51 } else if x == 11 { 238 } else if x == 12 { 27 } else if x == 13 { 104 } else if x == 14 { 199 } else if x == 15 { 75 } else if x == 16 { 4 } else if x == 17 { 100 } else if x == 18 { 224 } else if x == 19 { 14 } else if x == 20 { 52 } else if x == 21 { 141 } else if x == 22 { 239 } else if x == 23 { 129 } else if x == 24 { 28 } else if x == 25 { 193 } else if x == 26 { 105 } else if x == 27 { 248 } else if x == 28 { 200 } else if x == 29 { 8 } else if x == 30 { 76 } else if x == 31 { 113 } else if x == 32 { 5 } else if x == 33 { 138 } else if x == 34 { 101 } else if x == 35 { 47 } else if x == 36 { 225 } else if x == 37 { 36 } else if x == 38 { 15 } else if x == 39 { 33 } else if x == 40 { 53 } else if x == 41 { 147 } else if x == 42 { 142 } else if x == 43 { 218 } else if x == 44 { 240 } else if x == 45 { 18 } else if x == 46 { 130 } else if x == 47 { 69 } else if x == 48 { 29 } else if x == 49 { 181 } else if x == 50 { 194 } else if x == 51 { 125 } else if x == 52 { 106 } else if x == 53 { 39 } else if x == 54 { 249 } else if x == 55 { 185 } else if x == 56 { 201 } else if x == 57 { 154 } else if x == 58 { 9 } else if x == 59 { 120 } else if x == 60 { 77 } else if x == 61 { 228 } else if x == 62 { 114 } else if x == 63 { 166 } else if x == 64 { 6 } else if x == 65 { 191 } else if x == 66 { 139 } else if x == 67 { 98 } else if x == 68 { 102 } else if x == 69 { 221 } else if x == 70 { 48 } else if x == 71 { 253 } else if x == 72 { 226 } else if x == 73 { 152 } else if x == 74 { 37 } else if x == 75 { 179 } else if x == 76 { 16 } else if x == 77 { 145 } else if x == 78 { 34 } else if x == 79 { 136 } else if x == 80 { 54 } else if x == 81 { 208 } else if x == 82 { 148 } else if x == 83 { 206 } else if x == 84 { 143 } else if x == 85 { 150 } else if x == 86 { 219 } else if x == 87 { 189 } else if x == 88 { 241 } else if x == 89 { 210 } else if x == 90 { 19 } else if x == 91 { 92 } else if x == 92 { 131 } else if x == 93 { 56 } else if x == 94 { 70 } else if x == 95 { 64 } else if x == 96 { 30 } else if x == 97 { 66 } else if x == 98 { 182 } else if x == 99 { 163 } else if x == 100 { 195 } else if x == 101 { 72 } else if x == 102 { 126 } else if x == 103 { 110 } else if x == 104 { 107 } else if x == 105 { 58 } else if x == 106 { 40 } else if x == 107 { 84 } else if x == 108 { 250 } else if x == 109 { 133 } else if x == 110 { 186 } else if x == 111 { 61 } else if x == 112 { 202 } else if x == 113 { 94 } else if x == 114 { 155 } else if x == 115 { 159 } else if x == 116 { 10 } else if x == 117 { 21 } else if x == 118 { 121 } else if x == 119 { 43 } else if x == 120 { 78 } else if x == 121 { 212 } else if x == 122 { 229 } else if x == 123 { 172 } else if x == 124 { 115 } else if x == 125 { 243 } else if x == 126 { 167 } else if x == 127 { 87 } else if x == 128 { 7 } else if x == 129 { 112 } else if x == 130 { 192 } else if x == 131 { 247 } else if x == 132 { 140 } else if x == 133 { 128 } else if x == 134 { 99 } else if x == 135 { 13 } else if x == 136 { 103 } else if x == 137 { 74 } else if x == 138 { 222 } else if x == 139 { 237 } else if x == 140 { 49 } else if x == 141 { 197 } else if x == 142 { 254 } else if x == 143 { 24 } else if x == 144 { 227 } else if x == 145 { 165 } else if x == 146 { 153 } else if x == 147 { 119 } else if x == 148 { 38 } else if x == 149 { 184 } else if x == 150 { 180 } else if x == 151 { 124 } else if x == 152 { 17 } else if x == 153 { 68 } else if x == 154 { 146 } else if x == 155 { 217 } else if x == 156 { 35 } else if x == 157 { 32 } else if x == 158 { 137 } else if x == 159 { 46 } else if x == 160 { 55 } else if x == 161 { 63 } else if x == 162 { 209 } else if x == 163 { 91 } else if x == 164 { 149 } else if x == 165 { 188 } else if x == 166 { 207 } else if x == 167 { 205 } else if x == 168 { 144 } else if x == 169 { 135 } else if x == 170 { 151 } else if x == 171 { 178 } else if x == 172 { 220 } else if x == 173 { 252 } else if x == 174 { 190 } else if x == 175 { 97 } else if x == 176 { 242 } else if x == 177 { 86 } else if x == 178 { 211 } else if x == 179 { 171 } else if x == 180 { 20 } else if x == 181 { 42 } else if x == 182 { 93 } else if x == 183 { 158 } else if x == 184 { 132 } else if x == 185 { 60 } else if x == 186 { 57 } else if x == 187 { 83 } else if x == 188 { 71 } else if x == 189 { 109 } else if x == 190 { 65 } else if x == 191 { 162 } else if x == 192 { 31 } else if x == 193 { 45 } else if x == 194 { 67 } else if x == 195 { 216 } else if x == 196 { 183 } else if x == 197 { 123 } else if x == 198 { 164 } else if x == 199 { 118 } else if x == 200 { 196 } else if x == 201 { 23 } else if x == 202 { 73 } else if x == 203 { 236 } else if x == 204 { 127 } else if x == 205 { 12 } else if x == 206 { 111 } else if x == 207 { 246 } else if x == 208 { 108 } else if x == 209 { 161 } else if x == 210 { 59 } else if x == 211 { 82 } else if x == 212 { 41 } else if x == 213 { 157 } else if x == 214 { 85 } else if x == 215 { 170 } else if x == 216 { 251 } else if x == 217 { 96 } else if x == 218 { 134 } else if x == 219 { 177 } else if x == 220 { 187 } else if x == 221 { 204 } else if x == 222 { 62 } else if x == 223 { 90 } else if x == 224 { 203 } else if x == 225 { 89 } else if x == 226 { 95 } else if x == 227 { 176 } else if x == 228 { 156 } else if x == 229 { 169 } else if x == 230 { 160 } else if x == 231 { 81 } else if x == 232 { 11 } else if x == 233 { 245 } else if x == 234 { 22 } else if x == 235 { 235 } else if x == 236 { 122 } else if x == 237 { 117 } else if x == 238 { 44 } else if x == 239 { 215 } else if x == 240 { 79 } else if x == 241 { 174 } else if x == 242 { 213 } else if x == 243 { 233 } else if x == 244 { 230 } else if x == 245 { 231 } else if x == 246 { 173 } else if x == 247 { 232 } else if x == 248 { 116 } else if x == 249 { 214 } else if x == 250 { 244 } else if x == 251 { 234 } else if x == 252 { 168 } else if x == 253 { 80 } else if x == 254 { 88 } else if x == 255 { 175 } else { 0 }
}

/// Multiplication in GF(2^8) on bytes, through the log and antilog tables;
/// zero has no logarithm and annihilates.
pub open spec fn gfmul(x: u8, y: u8) -> u8 {
    if x == 0 || y == 0 {
        0
    } else {
        antilog_val((log_val(x as int) + log_val(y as int)) % 255)
    }
}

/// The multiplicative inverse of a nonzero byte of GF(2^8).
pub open spec fn gfinv(x: u8) -> u8 {
    gpow(((255 - log_val(x as int)) % 255) as nat)
}

/// Division in GF(2^8): multiplication by the inverse.
pub open spec fn gfdiv(x: u8, y: u8) -> u8 {
    gfmul(x, gfinv(y))
}

/// Every power of the generator up to 254 agrees with the antilog table.
pub proof fn lemma_antilog(k: int)
    requires
        0 <= k < 255,
    ensures
        gpow(k as nat) == antilog_val(k),
    decreases k,
{
    reveal(antilog_val);
    if k > 0 {
        lemma_antilog(k - 1);
    }
}

/// The log table inverts the antilog table: g^k has logarithm k.
pub proof fn lemma_log_antilog(k: int)
    requires
        0 <= k < 255,
    ensures
        log_val(antilog_val(k) as int) == k,
{
    reveal(antilog_val);
    reveal(log_val);
    lemma_antilog(k);
}

/// The antilog table inverts the log table: every nonzero byte is a power of g.
pub proof fn lemma_antilog_log(v: int)
    requires
        1 <= v < 256,
    ensures
        0 <= log_val(v) < 255,
        antilog_val(log_val(v)) == v as u8,
        gpow(log_val(v) as nat) == v as u8,
{
    reveal(antilog_val);
    reveal(log_val);
    lemma_antilog(log_val(v));
}

/// Distinct exponents below 255 give distinct powers of the generator.
pub proof fn lemma_gpow_injective(a: int, b: int)
    requires
        0 <= a < 255,
        0 <= b < 255,
        gpow(a as nat) == gpow(b as nat),
    ensures
        a == b,
{
    lemma_antilog(a);
    lemma_antilog(b);
    lemma_log_antilog(a);
    lemma_log_antilog(b);
}

/// Multiplying by the generator distributes over XOR.
pub proof fn lemma_gstep_xor(x: u8, y: u8)
    ensures
        gstep(x ^ y) == gstep(x) ^ gstep(y),
{
    assert(gstep(x ^ y) == gstep(x) ^ gstep(y)) by (bit_vector);
}

/// Multiplying a nonzero byte by the generator gives a nonzero byte.
pub proof fn lemma_gstep_nonzero(x: u8)
    requires
        x != 0,
    ensures
        gstep(x) != 0,
{
    if x >= 128 {
        assert(gstep(x) != 0) by (bit_vector) requires x >= 128;
    }
}

/// g^k times zero is zero.
pub proof fn lemma_powstep_zero(k: nat)
    ensures
        powstep(k, 0) == 0,
    decreases k,
{
    if k > 0 {
        lemma_powstep_zero((k - 1) as nat);
    }
}

/// Multiplying by g^k distributes over XOR.
pub proof fn lemma_powstep_xor(k: nat, x: u8, y: u8)
    ensures
        powstep(k, x ^ y) == powstep(k, x) ^ powstep(k, y),
    decreases k,
{
    if k > 0 {
        lemma_powstep_xor((k - 1) as nat, x, y);
        lemma_gstep_xor(powstep((k - 1) as nat, x), powstep((k - 1) as nat, y));
    }
}

/// g^k times a nonzero byte is nonzero.
pub proof fn lemma_powstep_nonzero(k: nat, x: u8)
    requires
        x != 0,
    ensures
        powstep(k, x) != 0,
    decreases k,
{
    if k > 0 {
        lemma_powstep_nonzero((k - 1) as nat, x);
        lemma_gstep_nonzero(powstep((k - 1) as nat, x));
    }
}

/// Exponents of repeated generator application add up.
pub proof fn lemma_powstep_add(a: nat, b: nat, x: u8)
    ensures
        powstep(a + b, x) == powstep(a, powstep(b, x)),
    decreases a,
{
    if a > 0 {
        lemma_powstep_add((a - 1) as nat, b, x);
    }
}

/// Applying the generator 255 times is the identity on every byte.
pub proof fn lemma_powstep_full_cycle(x: u8)
    ensures
        powstep(255, x) == x,
{
    reveal(antilog_val);
    lemma_antilog(254);
    assert(gpow(255) == gstep(gpow(254)));
    if x == 0 {
        lemma_powstep_zero(255);
    } else {
        lemma_antilog_log(x as int);
        let l = log_val(x as int) as nat;
        lemma_powstep_add(255, l, 1);
        lemma_powstep_add(l, 255, 1);
    }
}

/// Exponents reduce modulo 255.
pub proof fn lemma_gpow_reduce(m: nat)
    requires
        m < 510,
    ensures
        gpow(m) == gpow(m % 255),
{
    if m >= 255 {
        lemma_powstep_add((m - 255) as nat, 255, 1);
        lemma_powstep_full_cycle(1);
    }
}

/// Byte-level multiplication by g^k agrees with k applications of the generator.
pub proof fn lemma_gfmul_powstep(k: int, y: u8)
    requires
        0 <= k < 255,
    ensures
        gfmul(gpow(k as nat), y) == powstep(k as nat, y),
{
    lemma_antilog(k);
    lemma_gpow_nonzero(k as nat);
    if y == 0 {
        lemma_powstep_zero(k as nat);
    } else {
        lemma_log_antilog(k);
        lemma_antilog_log(y as int);
        let l = log_val(y as int);
        lemma_antilog((k + l) % 255);
        lemma_gpow_reduce((k + l) as nat);
        lemma_powstep_add(k as nat, l as nat, 1);
    }
}

/// No power of the generator is zero.
pub proof fn lemma_gpow_nonzero(k: nat)
    ensures
        gpow(k) != 0,
{
    lemma_powstep_nonzero(k, 1);
}

/// Multiplication of nonzero bytes is nonzero, and its logarithm is the sum
/// of the logarithms modulo 255.
pub proof fn lemma_gfmul_log(x: u8, y: u8)
    requires
        x != 0,
        y != 0,
    ensures
        gfmul(x, y) != 0,
        log_val(gfmul(x, y) as int) == (log_val(x as int) + log_val(y as int)) % 255,
{
    lemma_antilog_log(x as int);
    lemma_antilog_log(y as int);
    let s = (log_val(x as int) + log_val(y as int)) % 255;
    lemma_antilog(s);
    lemma_gpow_nonzero(s as nat);
    lemma_log_antilog(s);
}

/// Multiplication on bytes commutes.
pub proof fn lemma_gfmul_comm(x: u8, y: u8)
    ensures
        gfmul(x, y) == gfmul(y, x),
{
}

/// Multiplication on bytes associates.
pub proof fn lemma_gfmul_assoc(x: u8, y: u8, z: u8)
    ensures
        gfmul(gfmul(x, y), z) == gfmul(x, gfmul(y, z)),
{
    if x != 0 && y != 0 && z != 0 {
        lemma_gfmul_log(x, y);
        lemma_gfmul_log(y, z);
        let lx = log_val(x as int);
        let ly = log_val(y as int);
        let lz = log_val(z as int);
        lemma_antilog_log(x as int);
        lemma_antilog_log(y as int);
        lemma_antilog_log(z as int);
        assert(((lx + ly) % 255 + lz) % 255 == (lx + ly + lz) % 255) by (nonlinear_arith)
            requires 0 <= lx < 255 && 0 <= ly < 255 && 0 <= lz < 255;
        assert((lx + (ly + lz) % 255) % 255 == (lx + ly + lz) % 255) by (nonlinear_arith)
            requires 0 <= lx < 255 && 0 <= ly < 255 && 0 <= lz < 255;
    }
}

/// One is the multiplicative identity.
pub proof fn lemma_gfmul_one(y: u8)
    ensures
        gfmul(1, y) == y,
{
    if y != 0 {
        lemma_antilog_log(y as int);
        assert(log_val(1int) == 0) by {
            reveal(log_val);
        }
    }
}

/// A nonzero byte times its inverse is one.
pub proof fn lemma_gfmul_inv(x: u8)
    requires
        x != 0,
    ensures
        gfinv(x) != 0,
        gfmul(x, gfinv(x)) == 1,
{
    lemma_antilog_log(x as int);
    let l = log_val(x as int);
    lemma_antilog((255 - l) % 255);
    lemma_gpow_nonzero(((255 - l) % 255) as nat);
    lemma_log_antilog((255 - l) % 255);
    lemma_antilog(0);
}

/// Multiplication distributes over XOR in the right argument.
pub proof fn lemma_gfmul_xor(a: u8, x: u8, y: u8)
    ensures
        gfmul(a, x ^ y) == gfmul(a, x) ^ gfmul(a, y),
{
    if a == 0 {
        assert((0u8 ^ 0u8) == 0) by (bit_vector);
    } else {
        lemma_antilog_log(a as int);
        let l = log_val(a as int);
        lemma_gfmul_powstep(l, x ^ y);
        lemma_gfmul_powstep(l, x);
        lemma_gfmul_powstep(l, y);
        lemma_powstep_xor(l as nat, x, y);
    }
}

/// Multiplication distributes over XOR in the left argument.
pub proof fn lemma_gfmul_xor_left(x: u8, y: u8, a: u8)
    ensures
        gfmul(x ^ y, a) == gfmul(x, a) ^ gfmul(y, a),
{
    lemma_gfmul_comm(x ^ y, a);
    lemma_gfmul_comm(x, a);
    lemma_gfmul_comm(y, a);
    lemma_gfmul_xor(a, x, y);
}

/// Dividing a product by its right factor gives back the left factor.
pub proof fn lemma_gfdiv_mul(x: u8, y: u8)
    requires
        y != 0,
    ensures
        gfdiv(gfmul(x, y), y) == x,
        gfmul(gfdiv(x, y), y) == x,
{
    lemma_gfmul_inv(y);
    lemma_gfmul_assoc(x, y, gfinv(y));
    lemma_gfmul_comm(y, gfinv(y));
    lemma_gfmul_assoc(x, gfinv(y), y);
    lemma_gfmul_comm(gfmul(x, y), gfinv(y));
    lemma_gfmul_comm(x, gfmul(y, gfinv(y)));
    lemma_gfmul_one(x);
    lemma_gfmul_comm(gfmul(x, gfinv(y)), y);
    lemma_gfmul_comm(x, gfmul(gfinv(y), y));
}

/// XOR of bytes commutes.
pub broadcast proof fn lemma_xor_comm(a: u8, b: u8)
    ensures
        #[trigger] (a ^ b) == b ^ a,
{
    assert(a ^ b == b ^ a) by (bit_vector);
}

/// XOR of bytes associates.
pub broadcast proof fn lemma_xor_assoc(a: u8, b: u8, c: u8)
    ensures
        #[trigger] ((a ^ b) ^ c) == a ^ (b ^ c),
{
    assert((a ^ b) ^ c == a ^ (b ^ c)) by (bit_vector);
}

/// Zero is the XOR identity.
pub broadcast proof fn lemma_xor_zero(a: u8)
    ensures
        #[trigger] (a ^ 0) == a,
        #[trigger] (0 ^ a) == a,
{
    assert(a ^ 0 == a && 0 ^ a == a) by (bit_vector);
}

/// Every byte cancels itself under XOR.
pub broadcast proof fn lemma_xor_self(a: u8)
    ensures
        #[trigger] (a ^ a) == 0,
{
    assert(a ^ a == 0) by (bit_vector);
}

pub broadcast group group_xor_facts {
    lemma_xor_comm,
    lemma_xor_assoc,
    lemma_xor_zero,
    lemma_xor_self,
}

/// Magic value representing 0 in the field.
/// Because there exists no n where g^n = 0 and since g^255 is redundant of g^0,
/// we have a special case representing 0. This exhausts all possible values a u8 can hold.
pub const ZERO: u8 = 255;

/// Conversion of an exponent-like quantity into a field element.
pub trait FromPower<T>: Sized {
    /// The exponent in [0, 255) that the argument denotes.
    spec fn exponent_for(n: T) -> u8;

    /// The exponent the element stores; 255 stands for the zero element.
    spec fn stored_power(&self) -> u8;

    fn from_power(n: T) -> (r: Self)
        ensures
            r.stored_power() == Self::exponent_for(n),
    ;
}

/// An element of GF(2^8), held as the discrete logarithm of its byte value
/// with a distinguished tag (255) for the zero element.
#[derive(Clone, Copy, Debug, Eq, PartialEq, Structural)]
pub struct Gen {
    n: u8,
}

impl Gen {
    /// The exponent this element stores; 255 stands for zero.
    pub closed spec fn power_spec(self) -> u8 {
        self.n
    }

    /// Whether this element is the zero of the field.
    pub open spec fn is_zero_spec(self) -> bool {
        self.power_spec() == ZERO
    }

    /// The byte this element stands for.
    pub open spec fn byte_spec(self) -> u8 {
        if self.is_zero_spec() { 0 } else { gpow(self.power_spec() as nat) }
    }

    /// The exponents of the product of two elements: zero annihilates, and
    /// otherwise the exponents add modulo 255.
    pub open spec fn mul_power(a: u8, b: u8) -> u8 {
        if a == ZERO || b == ZERO { ZERO } else { ((a + b) % 255) as u8 }
    }

    /// Gets g^-n from g^n
    pub fn inverse(self) -> (r: Self)
        requires
            !self.is_zero_spec(),
        ensures
            r.power_spec() == (255 - self.power_spec() as int) % 255,
            !r.is_zero_spec(),
            r.byte_spec() == gfinv(self.byte_spec()),
            gfmul(self.byte_spec(), r.byte_spec()) == 1,
    {
        proof {
            lemma_gpow_nonzero(self.n as nat);
            lemma_antilog(self.n as int);
            lemma_log_antilog(self.n as int);
            lemma_gfmul_inv(self.byte_spec());
        }
        // g^0 is its own inverse
        if self.n == 0 {
            return self;
        }
        Self { n: 255 - self.n }
    }

    /// Returns g^n
    pub fn value(self) -> (r: u8)
        ensures
            r == self.byte_spec(),
    {
        if self.n == ZERO {
            0
        } else {
            let mut b: u8 = 1;
            let mut k: u8 = 0;
            while k < self.n
                invariant
                    k <= self.n,
                    b == gpow(k as nat),
                decreases self.n - k,
            {
                b = table::raid6_generator(b);
                k = k + 1;
            }
            b
        }
    }

    /// Returns the power of the generator
    pub fn power(self) -> (r: u8)
        ensures
            r == self.power_spec(),
    {
        self.n
    }

    /// Returns a value representing zero
    pub fn zero() -> (r: Self)
        ensures
            r.power_spec() == ZERO,
            r.byte_spec() == 0,
    {
        Self { n: ZERO }
    }

    /// Multiplication in the field: exponents add modulo 255 and zero annihilates.
    pub fn mul(self, rhs: Self) -> (r: Self)
        ensures
            r.power_spec() == Gen::mul_power(self.power_spec(), rhs.power_spec()),
            r.byte_spec() == gfmul(self.byte_spec(), rhs.byte_spec()),
    {
        proof {
            if self.n != ZERO && rhs.n != ZERO {
                lemma_gpow_nonzero(self.n as nat);
                lemma_gpow_nonzero(rhs.n as nat);
                lemma_antilog(self.n as int);
                lemma_antilog(rhs.n as int);
                lemma_log_antilog(self.n as int);
                lemma_log_antilog(rhs.n as int);
                lemma_antilog((self.n + rhs.n) % 255);
            }
        }
        if rhs.n == ZERO || self.n == ZERO {
            Self::zero()
        } else {
            Self { n: (((self.n as u16) + (rhs.n as u16)) % 255) as u8 }
        }
    }

    /// Multiplication by a plain byte.
    pub fn mul_byte(self, rhs: u8) -> (r: Self)
        ensures
            r.byte_spec() == gfmul(self.byte_spec(), rhs),
    {
        proof {
            lemma_from_byte(rhs);
        }
        self.mul(Gen::from(rhs))
    }

    /// Division in the field: multiplication by the inverse.
    pub fn div(self, rhs: Self) -> (r: Self)
        requires
            !rhs.is_zero_spec(),
        ensures
            r.byte_spec() == gfdiv(self.byte_spec(), rhs.byte_spec()),
            gfmul(r.byte_spec(), rhs.byte_spec()) == self.byte_spec(),
    {
        proof {
            lemma_gpow_nonzero(rhs.power_spec() as nat);
            lemma_gfdiv_mul(self.byte_spec(), rhs.byte_spec());
        }
        self.mul(rhs.inverse())
    }

    /// Addition of a plain byte: XOR on the byte values.
    pub fn add_byte(self, rhs: u8) -> (r: Self)
        ensures
            r.byte_spec() == self.byte_spec() ^ rhs,
    {
        proof {
            lemma_from_byte(self.byte_spec() ^ rhs);
        }
        Gen::from(self.value() ^ rhs)
    }

    /// XOR of this element's byte value with a plain byte.
    pub fn xor_byte(self, rhs: u8) -> (r: u8)
        ensures
            r == self.byte_spec() ^ rhs,
    {
        self.value() ^ rhs
    }
}

impl From<u8> for Gen {
    fn from(value: u8) -> (r: Self) {
        if value == 0 {
            Self::zero()
        } else {
            let mut b: u8 = 1;
            let mut k: u8 = 0;
            while b != value
                invariant
                    value != 0,
                    k < 255,
                    b == gpow(k as nat),
                    forall|m: int| 0 <= m < k ==> #[trigger] gpow(m as nat) != value,
                decreases 254 - k,
            {
                proof {
                    if k == 254 {
                        lemma_antilog_log(value as int);
                        let l = log_val(value as int);
                        assert(gpow(l as nat) == value);
                        assert(false);
                    }
                }
                b = table::raid6_generator(b);
                k = k + 1;
            }
            proof {
                lemma_antilog_log(value as int);
                lemma_gpow_injective(k as int, log_val(value as int));
            }
            Self { n: k }
        }
    }
}

impl vstd::std_specs::convert::FromSpecImpl<u8> for Gen {
    open spec fn obeys_from_spec() -> bool {
        true
    }

    closed spec fn from_spec(v: u8) -> Gen {
        if v == 0 { Gen { n: ZERO } } else { Gen { n: log_val(v as int) as u8 } }
    }
}

/// What conversion from a byte means on the element's model: the byte value
/// comes back unchanged, and only the byte zero gives the zero element.
pub proof fn lemma_from_byte(v: u8)
    ensures
        (<Gen as vstd::std_specs::convert::FromSpec<u8>>::from_spec(v)).byte_spec() == v,
        (<Gen as vstd::std_specs::convert::FromSpec<u8>>::from_spec(v)).is_zero_spec() <==> v == 0,
        v != 0 ==> (<Gen as vstd::std_specs::convert::FromSpec<u8>>::from_spec(v)).power_spec()
            == log_val(v as int),
{
    if v != 0 {
        lemma_antilog_log(v as int);
    }
}

impl FromPower<u8> for Gen {
    open spec fn exponent_for(n: u8) -> u8 {
        n
    }

    open spec fn stored_power(&self) -> u8 {
        self.power_spec()
    }

    fn from_power(n: u8) -> (r: Self) {
        Self { n }
    }
}

impl FromPower<i16> for Gen {
    open spec fn exponent_for(n: i16) -> u8 {
        ((n as int) % 255) as u8
    }

    open spec fn stored_power(&self) -> u8 {
        self.power_spec()
    }

    fn from_power(n: i16) -> (r: Self) {
        Self { n: reduce_exponent_signed(n as i64) }
    }
}

impl FromPower<i32> for Gen {
    open spec fn exponent_for(n: i32) -> u8 {
        ((n as int) % 255) as u8
    }

    open spec fn stored_power(&self) -> u8 {
        self.power_spec()
    }

    fn from_power(n: i32) -> (r: Self) {
        Self { n: reduce_exponent_signed(n as i64) }
    }
}

impl FromPower<usize> for Gen {
    open spec fn exponent_for(n: usize) -> u8 {
        ((n as int) % 255) as u8
    }

    open spec fn stored_power(&self) -> u8 {
        self.power_spec()
    }

    fn from_power(n: usize) -> (r: Self) {
        Self { n: (n % 255) as u8 }
    }
}

/// The least non-negative residue modulo 255 of a signed exponent.
fn reduce_exponent_signed(n: i64) -> (r: u8)
    requires
        i32::MIN <= n <= i32::MAX,
    ensures
        r == (n as int) % 255,
{
    if n >= 0 {
        ((n as u64) % 255) as u8
    } else {
        let m = (((-n) as u64) % 255) as u8;
        if m == 0 {
            0
        } else {
            255 - m
        }
    }
}

/// The zeroth power of the generator is one.
pub proof fn lemma_powstep_zero_exponent()
    ensures
        gpow(0) == 1,
{
}

/// A byte cancels itself under XOR.
pub proof fn lemma_xor_self_cancel(a: u8)
    ensures
        (a ^ a) == 0,
{
    assert(a ^ a == 0) by (bit_vector);
}

/// The product of two powers of the generator is the power of the reduced
/// exponent sum.
pub proof fn lemma_gpow_mul(a: int, b: int)
    requires
        0 <= a < 255,
        0 <= b < 255,
    ensures
        gfmul(gpow(a as nat), gpow(b as nat)) == gpow(((a + b) % 255) as nat),
{
    lemma_gpow_nonzero(a as nat);
    lemma_gpow_nonzero(b as nat);
    lemma_antilog(a);
    lemma_antilog(b);
    lemma_log_antilog(a);
    lemma_log_antilog(b);
    lemma_antilog((a + b) % 255);
}

/// Distinct bytes have a nonzero XOR.
pub proof fn lemma_xor_nonzero(a: u8, b: u8)
    requires
        a != b,
    ensures
        (a ^ b) != 0,
{
    assert(a != b ==> (a ^ b) != 0) by (bit_vector);
}

/// Identity of the field operations: g^i times g^(-i) is one, for every
/// exponent i in [0, 254]; -i denotes the residue (255 - i) mod 255.
pub proof fn lemma_power_inverse_identity(i: int)
    requires
        0 <= i <= 254,
    ensures
        gfmul(gpow(i as nat), gpow(((255 - i) % 255) as nat)) == 1,
        gpow(0) == 1,
{
    lemma_gpow_nonzero(i as nat);
    lemma_antilog(i);
    lemma_log_antilog(i);
    lemma_gfmul_inv(gpow(i as nat));
}

/// The eighth power of the generator is 0x1d, the reducing polynomial's tail.
pub proof fn lemma_generator_eighth_power()
    ensures
        gpow(8) == 0x1d,
{
    reveal(antilog_val);
    lemma_antilog(8);
}

/// 0 * g^i == 0 for every exponent; each equality is established statically.
pub fn test_zero()
{
    let z = Gen::zero();
    let mut i: i32 = 0;
    while i < 255
        invariant
            0 <= i <= 255,
            z.power_spec() == ZERO,
        decreases 255 - i,
    {
        let r = Gen::zero().mul(Gen::from_power(i));
        assert(r == z);
        i = i + 1;
    }
}

/// 1 == g^0, 2 == g^1, and g^255 == g^0; established statically.
pub fn test_one()
{
    // 1 == g^0
    let p1 = Gen::from(1).power();
    proof {
        lemma_from_byte(1);
        assert(log_val(1int) == 0) by { reveal(log_val); }
    }
    assert(p1 == 0);
    // g^1 == g == 2
    let p2 = Gen::from(2).power();
    proof {
        lemma_from_byte(2);
        assert(log_val(2int) == 1) by { reveal(log_val); }
    }
    assert(p2 == 1);
    // g^255 == g^0
    let a = Gen::from_power(255i32);
    let b = Gen::from_power(0i32);
    assert(a == b);
}

/// g^i * g^-i == g^0 for every i in [0, 255); established statically.
pub fn test_inverses()
{
    let one = Gen::from_power(0i32);
    let mut i: i32 = 0;
    // Not including 255 because g^255 = g^0 = 1
    while i < 255
        invariant
            0 <= i <= 255,
            one.power_spec() == 0,
        decreases 255 - i,
    {
        let r = Gen::from_power(i).mul(Gen::from_power(-i));
        assert(r == one);
        i = i + 1;
    }
}

/// {02}^8 == {1d}; established statically.
pub fn test_1d()
{
    let v = Gen::from_power(8i32).value();
    proof {
        lemma_generator_eighth_power();
    }
    assert(v == 0x1d);
}

} // verus!
