//! Tables of well-known curves.

use crate::montgomery;
use crate::weierstrass;
use vstd::prelude::*;

verus! {

/// The table of Curve25519: `y^2 = x^3 + 486662 x^2 + x` modulo `2^255 - 19`.
pub open spec fn curve25519_params() -> montgomery::Params {
    montgomery::Params {
        name: "curve25519",
        p: "57896044618658097711785492504343953926634992332820282019728792003956564819949",
        a: "486662",
        b: "1",
        s: "51042569399160536130206135233146329284152202253034631822681833788666877215207",
        r: "7237005577332262213973186563042994240857116359379907606001950938285454250989",
        h: "8",
        gx: "9",
        gy: "14781619447589544791020593568409986887264606134616475288964881837755586237401",
    }
}

/// Curve25519: `y^2 = x^3 + 486662 x^2 + x` modulo `2^255 - 19`.
pub fn curve25519() -> (id: montgomery::CurveID)
    ensures
        *id.0 == curve25519_params(),
{
    montgomery::CurveID(
        &montgomery::Params {
            name: "curve25519",
            p: "57896044618658097711785492504343953926634992332820282019728792003956564819949",
            a: "486662",
            b: "1",
            s: "51042569399160536130206135233146329284152202253034631822681833788666877215207",
            r: "7237005577332262213973186563042994240857116359379907606001950938285454250989",
            h: "8",
            gx: "9",
            gy: "14781619447589544791020593568409986887264606134616475288964881837755586237401",
        },
    )
}

/// The table of Curve448: `y^2 = x^3 + 156326 x^2 + x` modulo `2^448 - 2^224 - 1`.
pub open spec fn curve448_params() -> montgomery::Params {
    montgomery::Params {
        name: "curve448",
        p: "726838724295606890549323807888004534353641360687318060281490199180612328166730772686396383698676545930088884461843637361053498018365439",
        a: "156326",
        b: "1",
        s: "528950257000142451010969798134146496096806208096258258133290419984524923934728256972792120570883515182233459997657945594599653183173011",
        r: "181709681073901722637330951972001133588410340171829515070372549795146003961539585716195755291692375963310293709091662304773755859649779",
        h: "4",
        gx: "5",
        gy: "355293926785568175264127502063783334808976399387714271831880898435169088786967410002932673765864550910142774147268105838985595290606362",
    }
}

/// Curve448: `y^2 = x^3 + 156326 x^2 + x` modulo `2^448 - 2^224 - 1`.
pub fn curve448() -> (id: montgomery::CurveID)
    ensures
        *id.0 == curve448_params(),
{
    montgomery::CurveID(
        &montgomery::Params {
            name: "curve448",
            p: "726838724295606890549323807888004534353641360687318060281490199180612328166730772686396383698676545930088884461843637361053498018365439",
            a: "156326",
            b: "1",
            s: "528950257000142451010969798134146496096806208096258258133290419984524923934728256972792120570883515182233459997657945594599653183173011",
            r: "181709681073901722637330951972001133588410340171829515070372549795146003961539585716195755291692375963310293709091662304773755859649779",
            h: "4",
            gx: "5",
            gy: "355293926785568175264127502063783334808976399387714271831880898435169088786967410002932673765864550910142774147268105838985595290606362",
        },
    )
}

/// The table of NIST P-224, whose modulus is 1 modulo 8.
pub open spec fn p224_params() -> weierstrass::Params {
    weierstrass::Params {
        name: "P-224",
        p: "26959946667150639794667015087019630673557916260026308143510066298881",
        a: "-3",
        b: "18958286285566608000408668544493926415504680968679321075787234672564",
        r: "26959946667150639794667015087019625940457807714424391721682722368061",
        h: "1",
        gx: "19277929113566293071110308034699488026831934219452440156649784352033",
        gy: "19926808758034470970197974370888749184205991990603949537637343198772",
    }
}

/// NIST P-224, whose modulus is 1 modulo 8.
pub fn p224() -> (id: weierstrass::CurveID)
    ensures
        *id.0 == p224_params(),
{
    weierstrass::CurveID(
        &weierstrass::Params {
            name: "P-224",
            p: "26959946667150639794667015087019630673557916260026308143510066298881",
            a: "-3",
            b: "18958286285566608000408668544493926415504680968679321075787234672564",
            r: "26959946667150639794667015087019625940457807714424391721682722368061",
            h: "1",
            gx: "19277929113566293071110308034699488026831934219452440156649784352033",
            gy: "19926808758034470970197974370888749184205991990603949537637343198772",
        },
    )
}

/// The table of NIST P-256.
pub open spec fn p256_params() -> weierstrass::Params {
    weierstrass::Params {
        name: "P-256",
        p: "115792089210356248762697446949407573530086143415290314195533631308867097853951",
        a: "-3",
        b: "41058363725152142129326129780047268409114441015993725554835256314039467401291",
        r: "115792089210356248762697446949407573529996955224135760342422259061068512044369",
        h: "1",
        gx: "48439561293906451759052585252797914202762949526041747995844080717082404635286",
        gy: "36134250956749795798585127919587881956611106672985015071877198253568414405109",
    }
}

/// NIST P-256.
pub fn p256() -> (id: weierstrass::CurveID)
    ensures
        *id.0 == p256_params(),
{
    weierstrass::CurveID(
        &weierstrass::Params {
            name: "P-256",
            p: "115792089210356248762697446949407573530086143415290314195533631308867097853951",
            a: "-3",
            b: "41058363725152142129326129780047268409114441015993725554835256314039467401291",
            r: "115792089210356248762697446949407573529996955224135760342422259061068512044369",
            h: "1",
            gx: "48439561293906451759052585252797914202762949526041747995844080717082404635286",
            gy: "36134250956749795798585127919587881956611106672985015071877198253568414405109",
        },
    )
}

/// The table of NIST P-384.
pub open spec fn p384_params() -> weierstrass::Params {
    weierstrass::Params {
        name: "P-384",
        p: "39402006196394479212279040100143613805079739270465446667948293404245721771496870329047266088258938001861606973112319",
        a: "-3",
        b: "27580193559959705877849011840389048093056905856361568521428707301988689241309860865136260764883745107765439761230575",
        r: "39402006196394479212279040100143613805079739270465446667946905279627659399113263569398956308152294913554433653942643",
        h: "1",
        gx: "26247035095799689268623156744566981891852923491109213387815615900925518854738050089022388053975719786650872476732087",
        gy: "8325710961489029985546751289520108179287853048861315594709205902480503199884419224438643760392947333078086511627871",
    }
}

/// NIST P-384.
pub fn p384() -> (id: weierstrass::CurveID)
    ensures
        *id.0 == p384_params(),
{
    weierstrass::CurveID(
        &weierstrass::Params {
            name: "P-384",
            p: "39402006196394479212279040100143613805079739270465446667948293404245721771496870329047266088258938001861606973112319",
            a: "-3",
            b: "27580193559959705877849011840389048093056905856361568521428707301988689241309860865136260764883745107765439761230575",
            r: "39402006196394479212279040100143613805079739270465446667946905279627659399113263569398956308152294913554433653942643",
            h: "1",
            gx: "26247035095799689268623156744566981891852923491109213387815615900925518854738050089022388053975719786650872476732087",
            gy: "8325710961489029985546751289520108179287853048861315594709205902480503199884419224438643760392947333078086511627871",
        },
    )
}

/// The table of secp256k1: `y^2 = x^3 + 7`.
pub open spec fn secp256k1_params() -> weierstrass::Params {
    weierstrass::Params {
        name: "secp256k1",
        p: "115792089237316195423570985008687907853269984665640564039457584007908834671663",
        a: "0",
        b: "7",
        r: "115792089237316195423570985008687907852837564279074904382605163141518161494337",
        h: "1",
        gx: "55066263022277343669578718895168534326250603453777594175500187360389116729240",
        gy: "32670510020758816978083085130507043184471273380659243275938904335757337482424",
    }
}

/// secp256k1: `y^2 = x^3 + 7`.
pub fn secp256k1() -> (id: weierstrass::CurveID)
    ensures
        *id.0 == secp256k1_params(),
{
    weierstrass::CurveID(
        &weierstrass::Params {
            name: "secp256k1",
            p: "115792089237316195423570985008687907853269984665640564039457584007908834671663",
            a: "0",
            b: "7",
            r: "115792089237316195423570985008687907852837564279074904382605163141518161494337",
            h: "1",
            gx: "55066263022277343669578718895168534326250603453777594175500187360389116729240",
            gy: "32670510020758816978083085130507043184471273380659243275938904335757337482424",
        },
    )
}

} // verus!
