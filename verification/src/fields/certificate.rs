//! Numbers that witness that `x^128 + x^7 + x^2 + x + 1` is irreducible.
//!
//! An element that is its own square lies in the kernel of the linear map that
//! takes `e` to `e + e^2`. The columns [`column`] invert that map up to the
//! constants, so that only zero and one are their own squares. The numbers
//! [`conjugate`] are `x` squared again and again; after 128 squarings `x` is
//! back.
use super::ring::fold;
use vstd::prelude::*;

verus! {

/// The bits of the lower half of `l`, with a zero put in after each.
pub open spec fn spread(l: u128) -> u128 {
    let a = l & 0xffff_ffff_ffff_ffff;
    let b = (a | (a << 32)) & 0x0000_0000_ffff_ffff_0000_0000_ffff_ffff;
    let c = (b | (b << 16)) & 0x0000_ffff_0000_ffff_0000_ffff_0000_ffff;
    let d = (c | (c << 8)) & 0x00ff_00ff_00ff_00ff_00ff_00ff_00ff_00ff;
    let e = (d | (d << 4)) & 0x0f0f_0f0f_0f0f_0f0f_0f0f_0f0f_0f0f_0f0f;
    let f = (e | (e << 2)) & 0x3333_3333_3333_3333_3333_3333_3333_3333;
    (f | (f << 1)) & 0x5555_5555_5555_5555_5555_5555_5555_5555
}

/// The square of a residue, computed bitwise.
#[verifier::opaque]
pub open spec fn bit_square(a: u128) -> u128 {
    spread(a) ^ fold(spread(a >> 64))
}

/// `x` squared `n` times.
pub open spec fn conjugate(n: int) -> u128 {
    if n == 0 {
        0x2
    } else if n == 1 {
        0x4
    } else if n == 2 {
        0x10
    } else if n == 3 {
        0x100
    } else if n == 4 {
        0x10000
    } else if n == 5 {
        0x100000000
    } else if n == 6 {
        0x10000000000000000
    } else if n == 7 {
        0x87
    } else if n == 8 {
        0x4015
    } else if n == 9 {
        0x10000111
    } else if n == 10 {
        0x100000000010101
    } else if n == 11 {
        0x10000000000000000000100010001
    } else if n == 12 {
        0x87000000010000000100000001
    } else if n == 13 {
        0x21caea0000000000000086
    } else if n == 14 {
        0x21cae93f7cfc8
    } else if n == 15 {
        0x4015044544105551550555040
    } else if n == 16 {
        0x1001001111110961118fe6196978ef70
    } else if n == 17 {
        0x860140d2541486c693c692c775187987
    } else if n == 18 {
        0x8b69509b312d6501ea618e11df04ea1e
    } else if n == 19 {
        0xb715594eb7756558cad0352d30b311b4
    } else if n == 20 {
        0x1afdeffd35e5fde54e1a6f865fe82b9
    } else if n == 21 {
        0x11b4a30358935542218289f09c0659ed
    } else if n == 22 {
        0x83a513579eda579397b14587eebe264d
    } else if n == 23 {
        0x83ad91f69582bddf38d15180f9de45ad
    } else if n == 24 {
        0xc7f8a41756ad614d1a97936b620f481d
    } else if n == 25 {
        0xbb844bf6957599a6e94bf5687ccf4c39
    } else if n == 26 {
        0x2c3bd83d0661350d5aadb3837634c244
    } else if n == 27 {
        0x24f6fc2353c7f2321f726995c3f33829
    } else if n == 28 {
        0x150e344316f35f82a5b7efc52c5e9c53
    } else if n == 29 {
        0xcbe66ebbc72d228a891738c79d5ad319
    } else if n == 30 {
        0xd331a77342cf2867fbb824714f38f6c2
    } else if n == 31 {
        0x60dcdee4d2f1fc9262609e6968de22b0
    } else if n == 32 {
        0x782d0a995dd3b01821777af80695052a
    } else if n == 33 {
        0xcec3202236b9330fde0a74a95b11a7b2
    } else if n == 34 {
        0xcad1b2dd09125a5f800a7b44dd8e7a70
    } else if n == 35 {
        0xd3f537e04c700e277016c540c190dd74
    } else if n == 36 {
        0x20b022e1c1d1bc0809bbaa007aff17a4
    } else if n == 37 {
        0x1c621e475a73acaea5ea62f173a564de
    } else if n == 38 {
        0xeaab3a58b8a02fe2c1d3ada9e183a6f8
    } else if n == 39 {
        0xdffeae5cfc8592a22ee29c077314ee0d
    } else if n == 40 {
        0x1854548bb6f4de8e1794c9c6116bca12
    } else if n == 41 {
        0xa7ddbe68af10b36c5046371c4cc9eaa8
    } else if n == 42 {
        0xc7c20e0075b34cb3e77bd7620dd51099
    } else if n == 43 {
        0xeed7a7597ab9140ee385088258930c85
    } else if n == 44 {
        0xd3807dd9d6a39649d9bf3b428f207eec
    } else if n == 45 {
        0x64fb855fc75b066a7d1adaba58301148
    } else if n == 46 {
        0x710a093e99bb9946aba3d15b0b675aaa
    } else if n == 47 {
        0xafc267d97044a1c866216c6f770b3b1e
    } else if n == 48 {
        0xe316b61772920218fe1d7816d9eb81fd
    } else if n == 49 {
        0xfbcf8c1e442c8cf5b87c1159421de6c0
    } else if n == 50 {
        0x4d328e5ae8b1bde5687634c0bd8f66a6
    } else if n == 51 {
        0x4d758c29eeb484f7c8b21bf16608e4db
    } else if n == 52 {
        0x97da6d2e8f7686d939b53119c4b7496
    } else if n == 53 {
        0x60488351c7403436ccbb31a458da0423
    } else if n == 54 {
        0x3c5814a4c792b3beaba321469362905f
    } else if n == 55 {
        0xf6fd92c58b52c44dfbcf513b18b860f7
    } else if n == 56 {
        0x740252435434bd93e213b075ac781973
    } else if n == 57 {
        0xb7740311b0146782bb228613735755a8
    } else if n == 58 {
        0x14a4e774428f86a14e059e6f77db9735
    } else if n == 59 {
        0x9f07d44ae7b5f72d6728ba4f8b5ad996
    } else if n == 60 {
        0x783e0e827a3c43a2e68d429870a86444
    } else if n == 61 {
        0x9ed6f0fd3b898356dddef6f866a8cb3a
    } else if n == 62 {
        0x3dd46c137e3f5775ac6ea52692d6e84f
    } else if n == 63 {
        0xf64e2b2e01a1818581aae137a9a1f2ac
    } else if n == 64 {
        0x61651fea6b5832b944e598a795a299f6
    } else if n == 65 {
        0x7c9d30e6ed40cbc30e4292c6d87e2a65
    } else if n == 66 {
        0xc2c57e31da2ff653d47f657d9736a3bc
    } else if n == 67 {
        0xe325ada8d4bf8eff55cb32146561a494
    } else if n == 68 {
        0xbf884491f010fcf92b42640baf97546a
    } else if n == 69 {
        0x744ff1cc6c4147e96f55c63e138b0f6a
    } else if n == 70 {
        0xf72d4a117bba9cee44bd30ca7a959c35
    } else if n == 71 {
        0x31f9706e56dcd7c9dd3c39ec2fcb97ec
    } else if n == 72 {
        0xcafd0f1dee4b13f4f9104edc7cd7c419
    } else if n == 73 {
        0xc6b603373b7fff4c92f4024ed5a0366e
    } else if n == 74 {
        0xfb4b047c029d81bde9408400053759bb
    } else if n == 75 {
        0x5c12435b486ac2b0022c6b03d1e52223
    } else if n == 76 {
        0xdeb4814466d6d45600cb1be4b63b5b3d
    } else if n == 77 {
        0x1c8f0314c1ca2c6a235138002e3dec62
    } else if n == 78 {
        0xaa94fa2a07db8f59b4fa968f61ea5bd8
    } else if n == 79 {
        0xbaed1a1f49ca7f891ec3403efa66966e
    } else if n == 80 {
        0x79a3d532b4dca977042a87c2811ee47a
    } else if n == 81 {
        0xca74daf67fe0c93b13581fc7a95df199
    } else if n == 82 {
        0x92d3f21915a271738441bd78c444ed45
    } else if n == 83 {
        0x52525b16c4db307dfc4ce06bfdce9ed
    } else if n == 84 {
        0x59a044e544805b9900ed08440dda5eba
    } else if n == 85 {
        0xd6648859781bb4ef7800914cc52e273b
    } else if n == 86 {
        0x28266451a0c9c61d9ad1a02c574e9631
    } else if n == 87 {
        0x7c8647672078f3f4cd3c813afb78aa38
    } else if n == 88 {
        0x92c0cf343ae063ad494fdfab6df42306
    } else if n == 89 {
        0x5574a07cca7cd737aca6f91a6abde544
    } else if n == 90 {
        0xbbada747894bc3dd879287c869f885c3
    } else if n == 91 {
        0x386db41096f62a8af50e0632f2a35f5b
    } else if n == 92 {
        0xefdb4540536482251843656b2ea8f397
    } else if n == 93 {
        0x864204566cee644df1c52011971b40b3
    } else if n == 94 {
        0x9f65220d0c78fc67048e86e374780c55
    } else if n == 95 {
        0x6c3124a15e087d323caadfab02ea679d
    } else if n == 96 {
        0x40e2dfc1450698cadca8758ed620dd7b
    } else if n == 97 {
        0x217bea750913f0db29e30e4d37b882a1
    } else if n == 98 {
        0x18cc9c758f82f3a62452c0f06b2d5154
    } else if n == 99 {
        0xa2f988953ebab6d6ff4fc66638b9c77c
    } else if n == 100 {
        0x8b621a33b1f55be1b5cf3dbe01503955
    } else if n == 101 {
        0xa6403e49a18fdcec5bad32ffd131adf1
    } else if n == 102 {
        0xc7213453b5a004318da7ee035acac1d8
    } else if n == 103 {
        0xfab85890c72cf5bd42908c445873de98
    } else if n == 104 {
        0x18fb3bc896b15739aba9209e72802626
    } else if n == 105 {
        0xe2ae4c18bc72d0b5584b1b8ff9fdbe53
    } else if n == 106 {
        0xbf7fe7e158f5e6b627fbbc64727757a3
    } else if n == 107 {
        0x74349545e390b89fc3ef36c9b75a0400
    } else if n == 108 {
        0xb377c7044aeb289debaf56677af1691d
    } else if n == 109 {
        0xdd4a597abff1c6d46b3da5829a07e0f
    } else if n == 110 {
        0x390a7a5685925c88fb31442bbbee4562
    } else if n == 111 {
        0xef0226d7d8c4f9088d931140ce80f4ca
    } else if n == 112 {
        0xc77a431b17442dc246bdf85b5f5764d5
    } else if n == 113 {
        0xaaf58d8527dbb51e9cb66967210ef752
    } else if n == 114 {
        0xbea766c2fd57dce012c3142c06e2acc1
    } else if n == 115 {
        0x718b86e46755b667022ba9c65acbed68
    } else if n == 116 {
        0xeba2e73f8e06f46e77a7af910537779d
    } else if n == 117 {
        0x9a6d9a22e2bcf10bebbd0f52366f13ac
    } else if n == 118 {
        0x30930047648b0f33ab2b66ce2a82776c
    } else if n == 119 {
        0xdf6441de141c2ab56015a35f3e3c8cc5
    } else if n == 120 {
        0x821656934ab0df98a24abe27faf17b9
    } else if n == 121 {
        0x6186189d20b819418606bb0e28094f06
    } else if n == 122 {
        0x2cb2ca78e3a46e6118637a81b61a75a5
    } else if n == 123 {
        0x34d34d3086928aeaebacd53e52b72998
    } else if n == 124 {
        0xc71c71c308249e75db490028e7b6cf92
    } else if n == 125 {
        0xebaebefbebaeb6db75d751453cf3b6ac
    } else if n == 126 {
        0x9a69a69a618618618a28a28a1451455a
    } else if n == 127 {
        0x24924924924924926db6db6db6db6da4
    } else {
        0x2
    }
}

/// Column `k` of the inverse of `e + e^2`.
pub open spec fn column(k: int) -> u128 {
    if k == 0 {
        0x295ac0b1f4731af9676aac9fa4b20b08
    } else if k == 1 {
        0xe5da5595ee970b89929959af766af404
    } else if k == 2 {
        0xe5da5595ee970b89929959af766af406
    } else if k == 3 {
        0x4e9826c74350bfe67783f7333404a20c
    } else if k == 4 {
        0xe5da5595ee970b89929959af766af402
    } else if k == 5 {
        0x2aaea79ad7da34b07dc714cb83074e6a
    } else if k == 6 {
        0x4e9826c74350bfe67783f7333404a204
    } else if k == 7 {
        0xcc8095241ae41171f5f3f531d2d9fe18
    } else if k == 8 {
        0xe5da5595ee970b89929959af766af412
    } else if k == 9 {
        0x4e983687d159ce9677cb862e8ac85b44
    } else if k == 10 {
        0x2aaea79ad7da34b07dc714cb83074e4a
    } else if k == 11 {
        0xaae2ab6aaf144aaff73fcb3c06aaff56
    } else if k == 12 {
        0x4e9826c74350bfe67783f7333404a244
    } else if k == 13 {
        0xe62f327ccd5792dd893fe9ca40603f62
    } else if k == 14 {
        0xcc8095241ae41171f5f3f531d2d9fe98
    } else if k == 15 {
        0xab52f0323f47c90be1336bc7d453b626
    } else if k == 16 {
        0xe5da5595ee970b89929959af766af512
    } else if k == 17 {
        0x2abe34bad75338b479a6a089abf4573a
    } else if k == 18 {
        0x4e983687d159ce9677cb862e8ac85944
    } else if k == 19 {
        0x1e8ccb9dcc72f2e1a9cbef8232562fc
    } else if k == 20 {
        0x2aaea79ad7da34b07dc714cb83074a4a
    } else if k == 21 {
        0x2442c3221f3dc1a0ce869b24a80e48c
    } else if k == 22 {
        0xaae2ab6aaf144aaff73fcb3c06aaf756
    } else if k == 23 {
        0xcf64612f39c4323deb3ff936dd9aa228
    } else if k == 24 {
        0x4e9826c74350bfe67783f7333404b244
    } else if k == 25 {
        0xcc911696880d4909f0d5382a57572458
    } else if k == 26 {
        0xe62f327ccd5792dd893fe9ca40601f62
    } else if k == 27 {
        0x4d7cd7cc29d28cf2697f6478e5db2834
    } else if k == 28 {
        0xcc8095241ae41171f5f3f531d2d9be98
    } else if k == 29 {
        0xccc99127569146a7fc0956ca1a5b86a4
    } else if k == 30 {
        0xab52f0323f47c90be1336bc7d4533626
    } else if k == 31 {
        0x65cece94dacd5b1c14f5986b001eeb82
    } else if k == 32 {
        0xe5da5595ee970b89929959af766bf512
    } else if k == 33 {
        0x2b0e7fa2d509ca746fe27169c7c3e73a
    } else if k == 34 {
        0x2abe34bad75338b479a6a089abf6573a
    } else if k == 35 {
        0x65df4d264824132411d3553885980142
    } else if k == 36 {
        0x4e983687d159ce9677cb862e8acc5944
    } else if k == 37 {
        0xcf74f70e70ef2af7ef6fd21d2af671a4
    } else if k == 38 {
        0x1e8ccb9dcc72f2e1a9cbef8232d62fc
    } else if k == 39 {
        0xcec4b9173b16cdf9f91a9d8499490f58
    } else if k == 40 {
        0x2aaea79ad7da34b07dc714cb83174a4a
    } else if k == 41 {
        0x83f16f99175f624799a6cf206b513bdc
    } else if k == 42 {
        0x2442c3221f3dc1a0ce869b24aa0e48c
    } else if k == 43 {
        0x3f562a96a2aa9081b9e27ebe84671c0
    } else if k == 44 {
        0xaae2ab6aaf144aaff73fcb3c06eaf756
    } else if k == 45 {
        0xccc9c07ae11bcce3fcd6d526cddeebd4
    } else if k == 46 {
        0xcf64612f39c4323deb3ff936dd1aa228
    } else if k == 47 {
        0xa95fc803c09556f7e461dfebe8467196
    } else if k == 48 {
        0x4e9826c74350bfe67783f7333504b244
    } else if k == 49 {
        0x4cdc1ab0f0ab5b2e7b20ee03c15c7384
    } else if k == 50 {
        0xcc911696880d4909f0d5382a55572458
    } else if k == 51 {
        0xaaba68961da11d79fb48c8c7fe68cf6a
    } else if k == 52 {
        0xe62f327ccd5792dd893fe9ca44601f62
    } else if k == 53 {
        0xe5db5416ee209847938b5c70638d3bee
    } else if k == 54 {
        0x4d7cd7cc29d28cf2697f6478eddb2834
    } else if k == 55 {
        0x6437818b95e2e76e0b49fa26a7e512ce
    } else if k == 56 {
        0xcc8095241ae41171f5f3f531c2d9be98
    } else if k == 57 {
        0x4cd9020746184ba27868a299022ddf34
    } else if k == 58 {
        0xccc99127569146a7fc0956ca3a5b86a4
    } else if k == 59 {
        0x824171dcefbe4a8b8f1d24e407e8e76c
    } else if k == 60 {
        0xab52f0323f47c90be1336bc794533626
    } else if k == 61 {
        0xe62e22af1f6bf32b88711e202cdc3b5e
    } else if k == 62 {
        0x65cece94dacd5b1c14f5986b801eeb82
    } else if k == 63 {
        0x83f4672b23a92e499aadb85427b54520
    } else if k == 64 {
        0xe5da5595ee970b89929959ae766bf512
    } else if k == 65 {
        0x1040920971720048711dbeccf94c
    } else if k == 66 {
        0x2b0e7fa2d509ca746fe2716bc7c3e73a
    } else if k == 67 {
        0x81edd40a7a7437cb99d6b267d0d7976c
    } else if k == 68 {
        0x2abe34bad75338b479a6a08dabf6573a
    } else if k == 69 {
        0xe46a1e8deccdf96d84dd884d1a5d4462
    } else if k == 70 {
        0x65df4d264824132411d3553085980142
    } else if k == 71 {
        0x804c1cb1eac70f698ab1aeeb3a605920
    } else if k == 72 {
        0x4e983687d159ce9677cb863e8acc5944
    } else if k == 73 {
        0xa94f4b3252499e01e04514377dbd55aa
    } else if k == 74 {
        0xcf74f70e70ef2af7ef6fd23d2af671a4
    } else if k == 75 {
        0xe7d77da5831189d3978a93f3f56f619e
    } else if k == 76 {
        0x1e8ccb9dcc72f2e1a9cbeb8232d62fc
    } else if k == 77 {
        0x4cdd0f362b68e52a7a5109eab0a16ef4
    } else if k == 78 {
        0xcec4b9173b16cdf9f91a9d0499490f58
    } else if k == 79 {
        0xe4329c3d7bf233698830781e88d05912
    } else if k == 80 {
        0x2aaea79ad7da34b07dc715cb83174a4a
    } else if k == 81 {
        0x82082082597387418618bcbfcff334e0
    } else if k == 82 {
        0x83f16f99175f624799a6cd206b513bdc
    } else if k == 83 {
        0x294b124ed1181a846297e291f4adcc3a
    } else if k == 84 {
        0x2442c3221f3dc1a0ce86db24aa0e48c
    } else if k == 85 {
        0xe78fff41144664939b696b666550119e
    } else if k == 86 {
        0x3f562a96a2aa9081b9e2febe84671c0
    } else if k == 87 {
        0xcd78dbfd54a1436beb568d9e63d55a14
    } else if k == 88 {
        0xaae2ab6aaf144aaff73fdb3c06eaf756
    } else if k == 89 {
        0xccdd4e7b1ce38d0ffacabbbeed722b64
    } else if k == 90 {
        0xccc9c07ae11bcce3fcd6f526cddeebd4
    } else if k == 91 {
        0x3e5e1ccb1bf89c61fb4754fa43bbf3c
    } else if k == 92 {
        0xcf64612f39c4323deb3fb936dd1aa228
    } else if k == 93 {
        0xe5da00893461b455926f68f4172caea2
    } else if k == 94 {
        0xa95fc803c09556f7e4615febe8467196
    } else if k == 95 {
        0xe78ae2a77b3e87b1981cf1dccb9d1fd2
    } else if k == 96 {
        0x4e9826c74350bfe67782f7333504b244
    } else if k == 97 {
        0x2912d4222a675b0a6fd777b6c15f72c6
    } else if k == 98 {
        0x4cdc1ab0f0ab5b2e7b22ee03c15c7384
    } else if k == 99 {
        0xe7d6682e58d237f196f8740f85956fd2
    } else if k == 100 {
        0xcc911696880d4909f0d1382a55572458
    } else if k == 101 {
        0xab4366b0764a0b4be46143c933474626
    } else if k == 102 {
        0xaaba68961da11d79fb40c8c7fe68cf6a
    } else if k == 103 {
        0xe7d77d718378aeb397849bb7f7de0d9e
    } else if k == 104 {
        0xe62f327ccd5792dd892fe9ca44601f62
    } else if k == 105 {
        0x64231d9efb5729d60d13f9bd382e380e
    } else if k == 106 {
        0xe5db5416ee20984793ab5c70638d3bee
    } else if k == 107 {
        0x81b51ab7a5fe1499959811bd9a557220
    } else if k == 108 {
        0x4d7cd7cc29d28cf2693f6478eddb2834
    } else if k == 109 {
        0x295ab4bb43072c12678a4ee975a08406
    } else if k == 110 {
        0x6437818b95e2e76e0bc9fa26a7e512ce
    } else if k == 111 {
        0xab0eead38eb165ebef9e1acd25989a26
    } else if k == 112 {
        0xcc8095241ae41171f4f3f531c2d9be98
    } else if k == 113 {
        0x3ba7996db230c0010185b9b29b00000
    } else if k == 114 {
        0x4cd9020746184ba27a68a299022ddf34
    } else if k == 115 {
        0x8210932010890d058261f45338765990
    } else if k == 116 {
        0xccc99127569146a7f80956ca3a5b86a4
    } else if k == 117 {
        0x2a88e0fbb92f0c2c7f14722e3db361fa
    } else if k == 118 {
        0x824171dcefbe4a8b871d24e407e8e76c
    } else if k == 119 {
        0x29b11e87b8989fd86fb067f47d17578a
    } else if k == 120 {
        0xab52f0323f47c90bf1336bc794533626
    } else if k == 121 {
        0x0
    } else if k == 122 {
        0xe62e22af1f6bf32ba8711e202cdc3b5e
    } else if k == 123 {
        0x862e22af1f6bf32ba8711e202cdc3b6c
    } else if k == 124 {
        0x65cece94dacd5b1c54f5986b801eeb82
    } else if k == 125 {
        0x8e8cbdc6770aef73b1ef36f7c270bdac
    } else if k == 126 {
        0x83f4672b23a92e491aadb85427b54520
    } else {
        0x38b21c09fae1613c0db7ed8c3891e6fa
    }
}

/// Each conjugate is the square of the one before.
pub open spec fn conjugate_step(n: int) -> bool {
    bit_square(conjugate(n)) == conjugate(n + 1)
}

/// The steps below `n` hold.
pub open spec fn conjugate_steps(n: nat) -> bool
    decreases n,
{
    n == 0 || (conjugate_step(n - 1) && conjugate_steps((n - 1) as nat))
}

pub proof fn lemma_conjugates()
    ensures
        conjugate_steps(128),
        conjugate(128) == 2,
        conjugate(0) == 2,
{
    assert({
        &&& bit_square(0x2) == 0x4
        &&& bit_square(0x4) == 0x10
        &&& bit_square(0x10) == 0x100
        &&& bit_square(0x100) == 0x10000
        &&& bit_square(0x10000) == 0x100000000
        &&& bit_square(0x100000000) == 0x10000000000000000
        &&& bit_square(0x10000000000000000) == 0x87
        &&& bit_square(0x87) == 0x4015
        &&& bit_square(0x4015) == 0x10000111
        &&& bit_square(0x10000111) == 0x100000000010101
        &&& bit_square(0x100000000010101) == 0x10000000000000000000100010001
        &&& bit_square(0x10000000000000000000100010001) == 0x87000000010000000100000001
        &&& bit_square(0x87000000010000000100000001) == 0x21caea0000000000000086
        &&& bit_square(0x21caea0000000000000086) == 0x21cae93f7cfc8
        &&& bit_square(0x21cae93f7cfc8) == 0x4015044544105551550555040
        &&& bit_square(0x4015044544105551550555040) == 0x1001001111110961118fe6196978ef70
        &&& bit_square(0x1001001111110961118fe6196978ef70) == 0x860140d2541486c693c692c775187987
        &&& bit_square(0x860140d2541486c693c692c775187987) == 0x8b69509b312d6501ea618e11df04ea1e
        &&& bit_square(0x8b69509b312d6501ea618e11df04ea1e) == 0xb715594eb7756558cad0352d30b311b4
        &&& bit_square(0xb715594eb7756558cad0352d30b311b4) == 0x1afdeffd35e5fde54e1a6f865fe82b9
        &&& bit_square(0x1afdeffd35e5fde54e1a6f865fe82b9) == 0x11b4a30358935542218289f09c0659ed
        &&& bit_square(0x11b4a30358935542218289f09c0659ed) == 0x83a513579eda579397b14587eebe264d
        &&& bit_square(0x83a513579eda579397b14587eebe264d) == 0x83ad91f69582bddf38d15180f9de45ad
        &&& bit_square(0x83ad91f69582bddf38d15180f9de45ad) == 0xc7f8a41756ad614d1a97936b620f481d
        &&& bit_square(0xc7f8a41756ad614d1a97936b620f481d) == 0xbb844bf6957599a6e94bf5687ccf4c39
        &&& bit_square(0xbb844bf6957599a6e94bf5687ccf4c39) == 0x2c3bd83d0661350d5aadb3837634c244
        &&& bit_square(0x2c3bd83d0661350d5aadb3837634c244) == 0x24f6fc2353c7f2321f726995c3f33829
        &&& bit_square(0x24f6fc2353c7f2321f726995c3f33829) == 0x150e344316f35f82a5b7efc52c5e9c53
        &&& bit_square(0x150e344316f35f82a5b7efc52c5e9c53) == 0xcbe66ebbc72d228a891738c79d5ad319
        &&& bit_square(0xcbe66ebbc72d228a891738c79d5ad319) == 0xd331a77342cf2867fbb824714f38f6c2
        &&& bit_square(0xd331a77342cf2867fbb824714f38f6c2) == 0x60dcdee4d2f1fc9262609e6968de22b0
        &&& bit_square(0x60dcdee4d2f1fc9262609e6968de22b0) == 0x782d0a995dd3b01821777af80695052a
        &&& bit_square(0x782d0a995dd3b01821777af80695052a) == 0xcec3202236b9330fde0a74a95b11a7b2
        &&& bit_square(0xcec3202236b9330fde0a74a95b11a7b2) == 0xcad1b2dd09125a5f800a7b44dd8e7a70
        &&& bit_square(0xcad1b2dd09125a5f800a7b44dd8e7a70) == 0xd3f537e04c700e277016c540c190dd74
        &&& bit_square(0xd3f537e04c700e277016c540c190dd74) == 0x20b022e1c1d1bc0809bbaa007aff17a4
        &&& bit_square(0x20b022e1c1d1bc0809bbaa007aff17a4) == 0x1c621e475a73acaea5ea62f173a564de
        &&& bit_square(0x1c621e475a73acaea5ea62f173a564de) == 0xeaab3a58b8a02fe2c1d3ada9e183a6f8
        &&& bit_square(0xeaab3a58b8a02fe2c1d3ada9e183a6f8) == 0xdffeae5cfc8592a22ee29c077314ee0d
        &&& bit_square(0xdffeae5cfc8592a22ee29c077314ee0d) == 0x1854548bb6f4de8e1794c9c6116bca12
        &&& bit_square(0x1854548bb6f4de8e1794c9c6116bca12) == 0xa7ddbe68af10b36c5046371c4cc9eaa8
        &&& bit_square(0xa7ddbe68af10b36c5046371c4cc9eaa8) == 0xc7c20e0075b34cb3e77bd7620dd51099
        &&& bit_square(0xc7c20e0075b34cb3e77bd7620dd51099) == 0xeed7a7597ab9140ee385088258930c85
        &&& bit_square(0xeed7a7597ab9140ee385088258930c85) == 0xd3807dd9d6a39649d9bf3b428f207eec
        &&& bit_square(0xd3807dd9d6a39649d9bf3b428f207eec) == 0x64fb855fc75b066a7d1adaba58301148
        &&& bit_square(0x64fb855fc75b066a7d1adaba58301148) == 0x710a093e99bb9946aba3d15b0b675aaa
        &&& bit_square(0x710a093e99bb9946aba3d15b0b675aaa) == 0xafc267d97044a1c866216c6f770b3b1e
        &&& bit_square(0xafc267d97044a1c866216c6f770b3b1e) == 0xe316b61772920218fe1d7816d9eb81fd
        &&& bit_square(0xe316b61772920218fe1d7816d9eb81fd) == 0xfbcf8c1e442c8cf5b87c1159421de6c0
        &&& bit_square(0xfbcf8c1e442c8cf5b87c1159421de6c0) == 0x4d328e5ae8b1bde5687634c0bd8f66a6
        &&& bit_square(0x4d328e5ae8b1bde5687634c0bd8f66a6) == 0x4d758c29eeb484f7c8b21bf16608e4db
        &&& bit_square(0x4d758c29eeb484f7c8b21bf16608e4db) == 0x97da6d2e8f7686d939b53119c4b7496
        &&& bit_square(0x97da6d2e8f7686d939b53119c4b7496) == 0x60488351c7403436ccbb31a458da0423
        &&& bit_square(0x60488351c7403436ccbb31a458da0423) == 0x3c5814a4c792b3beaba321469362905f
        &&& bit_square(0x3c5814a4c792b3beaba321469362905f) == 0xf6fd92c58b52c44dfbcf513b18b860f7
        &&& bit_square(0xf6fd92c58b52c44dfbcf513b18b860f7) == 0x740252435434bd93e213b075ac781973
        &&& bit_square(0x740252435434bd93e213b075ac781973) == 0xb7740311b0146782bb228613735755a8
        &&& bit_square(0xb7740311b0146782bb228613735755a8) == 0x14a4e774428f86a14e059e6f77db9735
        &&& bit_square(0x14a4e774428f86a14e059e6f77db9735) == 0x9f07d44ae7b5f72d6728ba4f8b5ad996
        &&& bit_square(0x9f07d44ae7b5f72d6728ba4f8b5ad996) == 0x783e0e827a3c43a2e68d429870a86444
        &&& bit_square(0x783e0e827a3c43a2e68d429870a86444) == 0x9ed6f0fd3b898356dddef6f866a8cb3a
        &&& bit_square(0x9ed6f0fd3b898356dddef6f866a8cb3a) == 0x3dd46c137e3f5775ac6ea52692d6e84f
        &&& bit_square(0x3dd46c137e3f5775ac6ea52692d6e84f) == 0xf64e2b2e01a1818581aae137a9a1f2ac
        &&& bit_square(0xf64e2b2e01a1818581aae137a9a1f2ac) == 0x61651fea6b5832b944e598a795a299f6
        &&& bit_square(0x61651fea6b5832b944e598a795a299f6) == 0x7c9d30e6ed40cbc30e4292c6d87e2a65
        &&& bit_square(0x7c9d30e6ed40cbc30e4292c6d87e2a65) == 0xc2c57e31da2ff653d47f657d9736a3bc
        &&& bit_square(0xc2c57e31da2ff653d47f657d9736a3bc) == 0xe325ada8d4bf8eff55cb32146561a494
        &&& bit_square(0xe325ada8d4bf8eff55cb32146561a494) == 0xbf884491f010fcf92b42640baf97546a
        &&& bit_square(0xbf884491f010fcf92b42640baf97546a) == 0x744ff1cc6c4147e96f55c63e138b0f6a
        &&& bit_square(0x744ff1cc6c4147e96f55c63e138b0f6a) == 0xf72d4a117bba9cee44bd30ca7a959c35
        &&& bit_square(0xf72d4a117bba9cee44bd30ca7a959c35) == 0x31f9706e56dcd7c9dd3c39ec2fcb97ec
        &&& bit_square(0x31f9706e56dcd7c9dd3c39ec2fcb97ec) == 0xcafd0f1dee4b13f4f9104edc7cd7c419
        &&& bit_square(0xcafd0f1dee4b13f4f9104edc7cd7c419) == 0xc6b603373b7fff4c92f4024ed5a0366e
        &&& bit_square(0xc6b603373b7fff4c92f4024ed5a0366e) == 0xfb4b047c029d81bde9408400053759bb
        &&& bit_square(0xfb4b047c029d81bde9408400053759bb) == 0x5c12435b486ac2b0022c6b03d1e52223
        &&& bit_square(0x5c12435b486ac2b0022c6b03d1e52223) == 0xdeb4814466d6d45600cb1be4b63b5b3d
        &&& bit_square(0xdeb4814466d6d45600cb1be4b63b5b3d) == 0x1c8f0314c1ca2c6a235138002e3dec62
        &&& bit_square(0x1c8f0314c1ca2c6a235138002e3dec62) == 0xaa94fa2a07db8f59b4fa968f61ea5bd8
        &&& bit_square(0xaa94fa2a07db8f59b4fa968f61ea5bd8) == 0xbaed1a1f49ca7f891ec3403efa66966e
        &&& bit_square(0xbaed1a1f49ca7f891ec3403efa66966e) == 0x79a3d532b4dca977042a87c2811ee47a
        &&& bit_square(0x79a3d532b4dca977042a87c2811ee47a) == 0xca74daf67fe0c93b13581fc7a95df199
        &&& bit_square(0xca74daf67fe0c93b13581fc7a95df199) == 0x92d3f21915a271738441bd78c444ed45
        &&& bit_square(0x92d3f21915a271738441bd78c444ed45) == 0x52525b16c4db307dfc4ce06bfdce9ed
        &&& bit_square(0x52525b16c4db307dfc4ce06bfdce9ed) == 0x59a044e544805b9900ed08440dda5eba
        &&& bit_square(0x59a044e544805b9900ed08440dda5eba) == 0xd6648859781bb4ef7800914cc52e273b
        &&& bit_square(0xd6648859781bb4ef7800914cc52e273b) == 0x28266451a0c9c61d9ad1a02c574e9631
        &&& bit_square(0x28266451a0c9c61d9ad1a02c574e9631) == 0x7c8647672078f3f4cd3c813afb78aa38
        &&& bit_square(0x7c8647672078f3f4cd3c813afb78aa38) == 0x92c0cf343ae063ad494fdfab6df42306
        &&& bit_square(0x92c0cf343ae063ad494fdfab6df42306) == 0x5574a07cca7cd737aca6f91a6abde544
        &&& bit_square(0x5574a07cca7cd737aca6f91a6abde544) == 0xbbada747894bc3dd879287c869f885c3
        &&& bit_square(0xbbada747894bc3dd879287c869f885c3) == 0x386db41096f62a8af50e0632f2a35f5b
        &&& bit_square(0x386db41096f62a8af50e0632f2a35f5b) == 0xefdb4540536482251843656b2ea8f397
        &&& bit_square(0xefdb4540536482251843656b2ea8f397) == 0x864204566cee644df1c52011971b40b3
        &&& bit_square(0x864204566cee644df1c52011971b40b3) == 0x9f65220d0c78fc67048e86e374780c55
        &&& bit_square(0x9f65220d0c78fc67048e86e374780c55) == 0x6c3124a15e087d323caadfab02ea679d
        &&& bit_square(0x6c3124a15e087d323caadfab02ea679d) == 0x40e2dfc1450698cadca8758ed620dd7b
        &&& bit_square(0x40e2dfc1450698cadca8758ed620dd7b) == 0x217bea750913f0db29e30e4d37b882a1
        &&& bit_square(0x217bea750913f0db29e30e4d37b882a1) == 0x18cc9c758f82f3a62452c0f06b2d5154
        &&& bit_square(0x18cc9c758f82f3a62452c0f06b2d5154) == 0xa2f988953ebab6d6ff4fc66638b9c77c
        &&& bit_square(0xa2f988953ebab6d6ff4fc66638b9c77c) == 0x8b621a33b1f55be1b5cf3dbe01503955
        &&& bit_square(0x8b621a33b1f55be1b5cf3dbe01503955) == 0xa6403e49a18fdcec5bad32ffd131adf1
        &&& bit_square(0xa6403e49a18fdcec5bad32ffd131adf1) == 0xc7213453b5a004318da7ee035acac1d8
        &&& bit_square(0xc7213453b5a004318da7ee035acac1d8) == 0xfab85890c72cf5bd42908c445873de98
        &&& bit_square(0xfab85890c72cf5bd42908c445873de98) == 0x18fb3bc896b15739aba9209e72802626
        &&& bit_square(0x18fb3bc896b15739aba9209e72802626) == 0xe2ae4c18bc72d0b5584b1b8ff9fdbe53
        &&& bit_square(0xe2ae4c18bc72d0b5584b1b8ff9fdbe53) == 0xbf7fe7e158f5e6b627fbbc64727757a3
        &&& bit_square(0xbf7fe7e158f5e6b627fbbc64727757a3) == 0x74349545e390b89fc3ef36c9b75a0400
        &&& bit_square(0x74349545e390b89fc3ef36c9b75a0400) == 0xb377c7044aeb289debaf56677af1691d
        &&& bit_square(0xb377c7044aeb289debaf56677af1691d) == 0xdd4a597abff1c6d46b3da5829a07e0f
        &&& bit_square(0xdd4a597abff1c6d46b3da5829a07e0f) == 0x390a7a5685925c88fb31442bbbee4562
        &&& bit_square(0x390a7a5685925c88fb31442bbbee4562) == 0xef0226d7d8c4f9088d931140ce80f4ca
        &&& bit_square(0xef0226d7d8c4f9088d931140ce80f4ca) == 0xc77a431b17442dc246bdf85b5f5764d5
        &&& bit_square(0xc77a431b17442dc246bdf85b5f5764d5) == 0xaaf58d8527dbb51e9cb66967210ef752
        &&& bit_square(0xaaf58d8527dbb51e9cb66967210ef752) == 0xbea766c2fd57dce012c3142c06e2acc1
        &&& bit_square(0xbea766c2fd57dce012c3142c06e2acc1) == 0x718b86e46755b667022ba9c65acbed68
        &&& bit_square(0x718b86e46755b667022ba9c65acbed68) == 0xeba2e73f8e06f46e77a7af910537779d
        &&& bit_square(0xeba2e73f8e06f46e77a7af910537779d) == 0x9a6d9a22e2bcf10bebbd0f52366f13ac
        &&& bit_square(0x9a6d9a22e2bcf10bebbd0f52366f13ac) == 0x30930047648b0f33ab2b66ce2a82776c
        &&& bit_square(0x30930047648b0f33ab2b66ce2a82776c) == 0xdf6441de141c2ab56015a35f3e3c8cc5
        &&& bit_square(0xdf6441de141c2ab56015a35f3e3c8cc5) == 0x821656934ab0df98a24abe27faf17b9
        &&& bit_square(0x821656934ab0df98a24abe27faf17b9) == 0x6186189d20b819418606bb0e28094f06
        &&& bit_square(0x6186189d20b819418606bb0e28094f06) == 0x2cb2ca78e3a46e6118637a81b61a75a5
        &&& bit_square(0x2cb2ca78e3a46e6118637a81b61a75a5) == 0x34d34d3086928aeaebacd53e52b72998
        &&& bit_square(0x34d34d3086928aeaebacd53e52b72998) == 0xc71c71c308249e75db490028e7b6cf92
        &&& bit_square(0xc71c71c308249e75db490028e7b6cf92) == 0xebaebefbebaeb6db75d751453cf3b6ac
        &&& bit_square(0xebaebefbebaeb6db75d751453cf3b6ac) == 0x9a69a69a618618618a28a28a1451455a
        &&& bit_square(0x9a69a69a618618618a28a28a1451455a) == 0x24924924924924926db6db6db6db6da4
        &&& bit_square(0x24924924924924926db6db6db6db6da4) == 0x2
    }) by (bit_vector);
    assert(conjugate_steps(0));
    assert(conjugate_step(0));
    assert(conjugate_steps(1));
    assert(conjugate_step(1));
    assert(conjugate_steps(2));
    assert(conjugate_step(2));
    assert(conjugate_steps(3));
    assert(conjugate_step(3));
    assert(conjugate_steps(4));
    assert(conjugate_step(4));
    assert(conjugate_steps(5));
    assert(conjugate_step(5));
    assert(conjugate_steps(6));
    assert(conjugate_step(6));
    assert(conjugate_steps(7));
    assert(conjugate_step(7));
    assert(conjugate_steps(8));
    assert(conjugate_step(8));
    assert(conjugate_steps(9));
    assert(conjugate_step(9));
    assert(conjugate_steps(10));
    assert(conjugate_step(10));
    assert(conjugate_steps(11));
    assert(conjugate_step(11));
    assert(conjugate_steps(12));
    assert(conjugate_step(12));
    assert(conjugate_steps(13));
    assert(conjugate_step(13));
    assert(conjugate_steps(14));
    assert(conjugate_step(14));
    assert(conjugate_steps(15));
    assert(conjugate_step(15));
    assert(conjugate_steps(16));
    assert(conjugate_step(16));
    assert(conjugate_steps(17));
    assert(conjugate_step(17));
    assert(conjugate_steps(18));
    assert(conjugate_step(18));
    assert(conjugate_steps(19));
    assert(conjugate_step(19));
    assert(conjugate_steps(20));
    assert(conjugate_step(20));
    assert(conjugate_steps(21));
    assert(conjugate_step(21));
    assert(conjugate_steps(22));
    assert(conjugate_step(22));
    assert(conjugate_steps(23));
    assert(conjugate_step(23));
    assert(conjugate_steps(24));
    assert(conjugate_step(24));
    assert(conjugate_steps(25));
    assert(conjugate_step(25));
    assert(conjugate_steps(26));
    assert(conjugate_step(26));
    assert(conjugate_steps(27));
    assert(conjugate_step(27));
    assert(conjugate_steps(28));
    assert(conjugate_step(28));
    assert(conjugate_steps(29));
    assert(conjugate_step(29));
    assert(conjugate_steps(30));
    assert(conjugate_step(30));
    assert(conjugate_steps(31));
    assert(conjugate_step(31));
    assert(conjugate_steps(32));
    assert(conjugate_step(32));
    assert(conjugate_steps(33));
    assert(conjugate_step(33));
    assert(conjugate_steps(34));
    assert(conjugate_step(34));
    assert(conjugate_steps(35));
    assert(conjugate_step(35));
    assert(conjugate_steps(36));
    assert(conjugate_step(36));
    assert(conjugate_steps(37));
    assert(conjugate_step(37));
    assert(conjugate_steps(38));
    assert(conjugate_step(38));
    assert(conjugate_steps(39));
    assert(conjugate_step(39));
    assert(conjugate_steps(40));
    assert(conjugate_step(40));
    assert(conjugate_steps(41));
    assert(conjugate_step(41));
    assert(conjugate_steps(42));
    assert(conjugate_step(42));
    assert(conjugate_steps(43));
    assert(conjugate_step(43));
    assert(conjugate_steps(44));
    assert(conjugate_step(44));
    assert(conjugate_steps(45));
    assert(conjugate_step(45));
    assert(conjugate_steps(46));
    assert(conjugate_step(46));
    assert(conjugate_steps(47));
    assert(conjugate_step(47));
    assert(conjugate_steps(48));
    assert(conjugate_step(48));
    assert(conjugate_steps(49));
    assert(conjugate_step(49));
    assert(conjugate_steps(50));
    assert(conjugate_step(50));
    assert(conjugate_steps(51));
    assert(conjugate_step(51));
    assert(conjugate_steps(52));
    assert(conjugate_step(52));
    assert(conjugate_steps(53));
    assert(conjugate_step(53));
    assert(conjugate_steps(54));
    assert(conjugate_step(54));
    assert(conjugate_steps(55));
    assert(conjugate_step(55));
    assert(conjugate_steps(56));
    assert(conjugate_step(56));
    assert(conjugate_steps(57));
    assert(conjugate_step(57));
    assert(conjugate_steps(58));
    assert(conjugate_step(58));
    assert(conjugate_steps(59));
    assert(conjugate_step(59));
    assert(conjugate_steps(60));
    assert(conjugate_step(60));
    assert(conjugate_steps(61));
    assert(conjugate_step(61));
    assert(conjugate_steps(62));
    assert(conjugate_step(62));
    assert(conjugate_steps(63));
    assert(conjugate_step(63));
    assert(conjugate_steps(64));
    assert(conjugate_step(64));
    assert(conjugate_steps(65));
    assert(conjugate_step(65));
    assert(conjugate_steps(66));
    assert(conjugate_step(66));
    assert(conjugate_steps(67));
    assert(conjugate_step(67));
    assert(conjugate_steps(68));
    assert(conjugate_step(68));
    assert(conjugate_steps(69));
    assert(conjugate_step(69));
    assert(conjugate_steps(70));
    assert(conjugate_step(70));
    assert(conjugate_steps(71));
    assert(conjugate_step(71));
    assert(conjugate_steps(72));
    assert(conjugate_step(72));
    assert(conjugate_steps(73));
    assert(conjugate_step(73));
    assert(conjugate_steps(74));
    assert(conjugate_step(74));
    assert(conjugate_steps(75));
    assert(conjugate_step(75));
    assert(conjugate_steps(76));
    assert(conjugate_step(76));
    assert(conjugate_steps(77));
    assert(conjugate_step(77));
    assert(conjugate_steps(78));
    assert(conjugate_step(78));
    assert(conjugate_steps(79));
    assert(conjugate_step(79));
    assert(conjugate_steps(80));
    assert(conjugate_step(80));
    assert(conjugate_steps(81));
    assert(conjugate_step(81));
    assert(conjugate_steps(82));
    assert(conjugate_step(82));
    assert(conjugate_steps(83));
    assert(conjugate_step(83));
    assert(conjugate_steps(84));
    assert(conjugate_step(84));
    assert(conjugate_steps(85));
    assert(conjugate_step(85));
    assert(conjugate_steps(86));
    assert(conjugate_step(86));
    assert(conjugate_steps(87));
    assert(conjugate_step(87));
    assert(conjugate_steps(88));
    assert(conjugate_step(88));
    assert(conjugate_steps(89));
    assert(conjugate_step(89));
    assert(conjugate_steps(90));
    assert(conjugate_step(90));
    assert(conjugate_steps(91));
    assert(conjugate_step(91));
    assert(conjugate_steps(92));
    assert(conjugate_step(92));
    assert(conjugate_steps(93));
    assert(conjugate_step(93));
    assert(conjugate_steps(94));
    assert(conjugate_step(94));
    assert(conjugate_steps(95));
    assert(conjugate_step(95));
    assert(conjugate_steps(96));
    assert(conjugate_step(96));
    assert(conjugate_steps(97));
    assert(conjugate_step(97));
    assert(conjugate_steps(98));
    assert(conjugate_step(98));
    assert(conjugate_steps(99));
    assert(conjugate_step(99));
    assert(conjugate_steps(100));
    assert(conjugate_step(100));
    assert(conjugate_steps(101));
    assert(conjugate_step(101));
    assert(conjugate_steps(102));
    assert(conjugate_step(102));
    assert(conjugate_steps(103));
    assert(conjugate_step(103));
    assert(conjugate_steps(104));
    assert(conjugate_step(104));
    assert(conjugate_steps(105));
    assert(conjugate_step(105));
    assert(conjugate_steps(106));
    assert(conjugate_step(106));
    assert(conjugate_steps(107));
    assert(conjugate_step(107));
    assert(conjugate_steps(108));
    assert(conjugate_step(108));
    assert(conjugate_steps(109));
    assert(conjugate_step(109));
    assert(conjugate_steps(110));
    assert(conjugate_step(110));
    assert(conjugate_steps(111));
    assert(conjugate_step(111));
    assert(conjugate_steps(112));
    assert(conjugate_step(112));
    assert(conjugate_steps(113));
    assert(conjugate_step(113));
    assert(conjugate_steps(114));
    assert(conjugate_step(114));
    assert(conjugate_steps(115));
    assert(conjugate_step(115));
    assert(conjugate_steps(116));
    assert(conjugate_step(116));
    assert(conjugate_steps(117));
    assert(conjugate_step(117));
    assert(conjugate_steps(118));
    assert(conjugate_step(118));
    assert(conjugate_steps(119));
    assert(conjugate_step(119));
    assert(conjugate_steps(120));
    assert(conjugate_step(120));
    assert(conjugate_steps(121));
    assert(conjugate_step(121));
    assert(conjugate_steps(122));
    assert(conjugate_step(122));
    assert(conjugate_steps(123));
    assert(conjugate_step(123));
    assert(conjugate_steps(124));
    assert(conjugate_step(124));
    assert(conjugate_steps(125));
    assert(conjugate_step(125));
    assert(conjugate_steps(126));
    assert(conjugate_step(126));
    assert(conjugate_steps(127));
    assert(conjugate_step(127));
    assert(conjugate_steps(128));
}

/// The columns undo `e + e^2` on the powers of `x`.
pub open spec fn column_step(j: int) -> bool {
    let t = 2 * j - 128;
    (if j == 0 {
        true
    } else if j < 64 {
        column(j) ^ column(2 * j) == 1u128 << (j as u128)
    } else if j < 125 {
        column(j) ^ column(t) ^ column(t + 1) ^ column(t + 2) ^ column(t + 7) == 1u128 << (
        j as u128)
    } else if j == 125 {
        column(125) ^ column(122) ^ column(123) ^ column(124) ^ column(1) ^ column(2) ^ column(3)
            ^ column(8) == 1u128 << 125u128
    } else if j == 126 {
        column(126) ^ column(124) ^ column(125) ^ column(126) ^ column(3) ^ column(4) ^ column(5)
            ^ column(10) == 1u128 << 126u128
    } else {
        column(127) ^ column(126) ^ column(127) ^ column(0) ^ column(1) ^ column(2) ^ column(5)
            ^ column(6) ^ column(12) == 1u128 << 127u128
    })
}

/// The steps below `n` hold.
pub open spec fn column_steps(n: nat) -> bool
    decreases n,
{
    n == 0 || (column_step(n - 1) && column_steps((n - 1) as nat))
}

pub proof fn lemma_columns()
    ensures
        column_steps(128),
{
    assert({
        &&& 0xe5da5595ee970b89929959af766af404u128 ^ 0xe5da5595ee970b89929959af766af406 == 1u128 << 1u128
        &&& 0xe5da5595ee970b89929959af766af406u128 ^ 0xe5da5595ee970b89929959af766af402 == 1u128 << 2u128
        &&& 0x4e9826c74350bfe67783f7333404a20cu128 ^ 0x4e9826c74350bfe67783f7333404a204 == 1u128 << 3u128
        &&& 0xe5da5595ee970b89929959af766af402u128 ^ 0xe5da5595ee970b89929959af766af412 == 1u128 << 4u128
        &&& 0x2aaea79ad7da34b07dc714cb83074e6au128 ^ 0x2aaea79ad7da34b07dc714cb83074e4a == 1u128 << 5u128
        &&& 0x4e9826c74350bfe67783f7333404a204u128 ^ 0x4e9826c74350bfe67783f7333404a244 == 1u128 << 6u128
        &&& 0xcc8095241ae41171f5f3f531d2d9fe18u128 ^ 0xcc8095241ae41171f5f3f531d2d9fe98 == 1u128 << 7u128
        &&& 0xe5da5595ee970b89929959af766af412u128 ^ 0xe5da5595ee970b89929959af766af512 == 1u128 << 8u128
        &&& 0x4e983687d159ce9677cb862e8ac85b44u128 ^ 0x4e983687d159ce9677cb862e8ac85944 == 1u128 << 9u128
        &&& 0x2aaea79ad7da34b07dc714cb83074e4au128 ^ 0x2aaea79ad7da34b07dc714cb83074a4a == 1u128 << 10u128
        &&& 0xaae2ab6aaf144aaff73fcb3c06aaff56u128 ^ 0xaae2ab6aaf144aaff73fcb3c06aaf756 == 1u128 << 11u128
        &&& 0x4e9826c74350bfe67783f7333404a244u128 ^ 0x4e9826c74350bfe67783f7333404b244 == 1u128 << 12u128
        &&& 0xe62f327ccd5792dd893fe9ca40603f62u128 ^ 0xe62f327ccd5792dd893fe9ca40601f62 == 1u128 << 13u128
        &&& 0xcc8095241ae41171f5f3f531d2d9fe98u128 ^ 0xcc8095241ae41171f5f3f531d2d9be98 == 1u128 << 14u128
        &&& 0xab52f0323f47c90be1336bc7d453b626u128 ^ 0xab52f0323f47c90be1336bc7d4533626 == 1u128 << 15u128
        &&& 0xe5da5595ee970b89929959af766af512u128 ^ 0xe5da5595ee970b89929959af766bf512 == 1u128 << 16u128
        &&& 0x2abe34bad75338b479a6a089abf4573au128 ^ 0x2abe34bad75338b479a6a089abf6573a == 1u128 << 17u128
        &&& 0x4e983687d159ce9677cb862e8ac85944u128 ^ 0x4e983687d159ce9677cb862e8acc5944 == 1u128 << 18u128
        &&& 0x1e8ccb9dcc72f2e1a9cbef8232562fcu128 ^ 0x1e8ccb9dcc72f2e1a9cbef8232d62fc == 1u128 << 19u128
        &&& 0x2aaea79ad7da34b07dc714cb83074a4au128 ^ 0x2aaea79ad7da34b07dc714cb83174a4a == 1u128 << 20u128
        &&& 0x2442c3221f3dc1a0ce869b24a80e48cu128 ^ 0x2442c3221f3dc1a0ce869b24aa0e48c == 1u128 << 21u128
        &&& 0xaae2ab6aaf144aaff73fcb3c06aaf756u128 ^ 0xaae2ab6aaf144aaff73fcb3c06eaf756 == 1u128 << 22u128
        &&& 0xcf64612f39c4323deb3ff936dd9aa228u128 ^ 0xcf64612f39c4323deb3ff936dd1aa228 == 1u128 << 23u128
        &&& 0x4e9826c74350bfe67783f7333404b244u128 ^ 0x4e9826c74350bfe67783f7333504b244 == 1u128 << 24u128
        &&& 0xcc911696880d4909f0d5382a57572458u128 ^ 0xcc911696880d4909f0d5382a55572458 == 1u128 << 25u128
        &&& 0xe62f327ccd5792dd893fe9ca40601f62u128 ^ 0xe62f327ccd5792dd893fe9ca44601f62 == 1u128 << 26u128
        &&& 0x4d7cd7cc29d28cf2697f6478e5db2834u128 ^ 0x4d7cd7cc29d28cf2697f6478eddb2834 == 1u128 << 27u128
        &&& 0xcc8095241ae41171f5f3f531d2d9be98u128 ^ 0xcc8095241ae41171f5f3f531c2d9be98 == 1u128 << 28u128
        &&& 0xccc99127569146a7fc0956ca1a5b86a4u128 ^ 0xccc99127569146a7fc0956ca3a5b86a4 == 1u128 << 29u128
        &&& 0xab52f0323f47c90be1336bc7d4533626u128 ^ 0xab52f0323f47c90be1336bc794533626 == 1u128 << 30u128
        &&& 0x65cece94dacd5b1c14f5986b001eeb82u128 ^ 0x65cece94dacd5b1c14f5986b801eeb82 == 1u128 << 31u128
        &&& 0xe5da5595ee970b89929959af766bf512u128 ^ 0xe5da5595ee970b89929959ae766bf512 == 1u128 << 32u128
        &&& 0x2b0e7fa2d509ca746fe27169c7c3e73au128 ^ 0x2b0e7fa2d509ca746fe2716bc7c3e73a == 1u128 << 33u128
        &&& 0x2abe34bad75338b479a6a089abf6573au128 ^ 0x2abe34bad75338b479a6a08dabf6573a == 1u128 << 34u128
        &&& 0x65df4d264824132411d3553885980142u128 ^ 0x65df4d264824132411d3553085980142 == 1u128 << 35u128
        &&& 0x4e983687d159ce9677cb862e8acc5944u128 ^ 0x4e983687d159ce9677cb863e8acc5944 == 1u128 << 36u128
        &&& 0xcf74f70e70ef2af7ef6fd21d2af671a4u128 ^ 0xcf74f70e70ef2af7ef6fd23d2af671a4 == 1u128 << 37u128
        &&& 0x1e8ccb9dcc72f2e1a9cbef8232d62fcu128 ^ 0x1e8ccb9dcc72f2e1a9cbeb8232d62fc == 1u128 << 38u128
        &&& 0xcec4b9173b16cdf9f91a9d8499490f58u128 ^ 0xcec4b9173b16cdf9f91a9d0499490f58 == 1u128 << 39u128
        &&& 0x2aaea79ad7da34b07dc714cb83174a4au128 ^ 0x2aaea79ad7da34b07dc715cb83174a4a == 1u128 << 40u128
        &&& 0x83f16f99175f624799a6cf206b513bdcu128 ^ 0x83f16f99175f624799a6cd206b513bdc == 1u128 << 41u128
        &&& 0x2442c3221f3dc1a0ce869b24aa0e48cu128 ^ 0x2442c3221f3dc1a0ce86db24aa0e48c == 1u128 << 42u128
        &&& 0x3f562a96a2aa9081b9e27ebe84671c0u128 ^ 0x3f562a96a2aa9081b9e2febe84671c0 == 1u128 << 43u128
        &&& 0xaae2ab6aaf144aaff73fcb3c06eaf756u128 ^ 0xaae2ab6aaf144aaff73fdb3c06eaf756 == 1u128 << 44u128
        &&& 0xccc9c07ae11bcce3fcd6d526cddeebd4u128 ^ 0xccc9c07ae11bcce3fcd6f526cddeebd4 == 1u128 << 45u128
        &&& 0xcf64612f39c4323deb3ff936dd1aa228u128 ^ 0xcf64612f39c4323deb3fb936dd1aa228 == 1u128 << 46u128
        &&& 0xa95fc803c09556f7e461dfebe8467196u128 ^ 0xa95fc803c09556f7e4615febe8467196 == 1u128 << 47u128
        &&& 0x4e9826c74350bfe67783f7333504b244u128 ^ 0x4e9826c74350bfe67782f7333504b244 == 1u128 << 48u128
        &&& 0x4cdc1ab0f0ab5b2e7b20ee03c15c7384u128 ^ 0x4cdc1ab0f0ab5b2e7b22ee03c15c7384 == 1u128 << 49u128
        &&& 0xcc911696880d4909f0d5382a55572458u128 ^ 0xcc911696880d4909f0d1382a55572458 == 1u128 << 50u128
        &&& 0xaaba68961da11d79fb48c8c7fe68cf6au128 ^ 0xaaba68961da11d79fb40c8c7fe68cf6a == 1u128 << 51u128
        &&& 0xe62f327ccd5792dd893fe9ca44601f62u128 ^ 0xe62f327ccd5792dd892fe9ca44601f62 == 1u128 << 52u128
        &&& 0xe5db5416ee209847938b5c70638d3beeu128 ^ 0xe5db5416ee20984793ab5c70638d3bee == 1u128 << 53u128
        &&& 0x4d7cd7cc29d28cf2697f6478eddb2834u128 ^ 0x4d7cd7cc29d28cf2693f6478eddb2834 == 1u128 << 54u128
        &&& 0x6437818b95e2e76e0b49fa26a7e512ceu128 ^ 0x6437818b95e2e76e0bc9fa26a7e512ce == 1u128 << 55u128
        &&& 0xcc8095241ae41171f5f3f531c2d9be98u128 ^ 0xcc8095241ae41171f4f3f531c2d9be98 == 1u128 << 56u128
        &&& 0x4cd9020746184ba27868a299022ddf34u128 ^ 0x4cd9020746184ba27a68a299022ddf34 == 1u128 << 57u128
        &&& 0xccc99127569146a7fc0956ca3a5b86a4u128 ^ 0xccc99127569146a7f80956ca3a5b86a4 == 1u128 << 58u128
        &&& 0x824171dcefbe4a8b8f1d24e407e8e76cu128 ^ 0x824171dcefbe4a8b871d24e407e8e76c == 1u128 << 59u128
        &&& 0xab52f0323f47c90be1336bc794533626u128 ^ 0xab52f0323f47c90bf1336bc794533626 == 1u128 << 60u128
        &&& 0xe62e22af1f6bf32b88711e202cdc3b5eu128 ^ 0xe62e22af1f6bf32ba8711e202cdc3b5e == 1u128 << 61u128
        &&& 0x65cece94dacd5b1c14f5986b801eeb82u128 ^ 0x65cece94dacd5b1c54f5986b801eeb82 == 1u128 << 62u128
        &&& 0x83f4672b23a92e499aadb85427b54520u128 ^ 0x83f4672b23a92e491aadb85427b54520 == 1u128 << 63u128
        &&& 0xe5da5595ee970b89929959ae766bf512u128 ^ 0x295ac0b1f4731af9676aac9fa4b20b08 ^ 0xe5da5595ee970b89929959af766af404 ^ 0xe5da5595ee970b89929959af766af406 ^ 0xcc8095241ae41171f5f3f531d2d9fe18 == 1u128 << 64u128
        &&& 0x1040920971720048711dbeccf94cu128 ^ 0xe5da5595ee970b89929959af766af406 ^ 0x4e9826c74350bfe67783f7333404a20c ^ 0xe5da5595ee970b89929959af766af402 ^ 0x4e983687d159ce9677cb862e8ac85b44 == 1u128 << 65u128
        &&& 0x2b0e7fa2d509ca746fe2716bc7c3e73au128 ^ 0xe5da5595ee970b89929959af766af402 ^ 0x2aaea79ad7da34b07dc714cb83074e6a ^ 0x4e9826c74350bfe67783f7333404a204 ^ 0xaae2ab6aaf144aaff73fcb3c06aaff56 == 1u128 << 66u128
        &&& 0x81edd40a7a7437cb99d6b267d0d7976cu128 ^ 0x4e9826c74350bfe67783f7333404a204 ^ 0xcc8095241ae41171f5f3f531d2d9fe18 ^ 0xe5da5595ee970b89929959af766af412 ^ 0xe62f327ccd5792dd893fe9ca40603f62 == 1u128 << 67u128
        &&& 0x2abe34bad75338b479a6a08dabf6573au128 ^ 0xe5da5595ee970b89929959af766af412 ^ 0x4e983687d159ce9677cb862e8ac85b44 ^ 0x2aaea79ad7da34b07dc714cb83074e4a ^ 0xab52f0323f47c90be1336bc7d453b626 == 1u128 << 68u128
        &&& 0xe46a1e8deccdf96d84dd884d1a5d4462u128 ^ 0x2aaea79ad7da34b07dc714cb83074e4a ^ 0xaae2ab6aaf144aaff73fcb3c06aaff56 ^ 0x4e9826c74350bfe67783f7333404a244 ^ 0x2abe34bad75338b479a6a089abf4573a == 1u128 << 69u128
        &&& 0x65df4d264824132411d3553085980142u128 ^ 0x4e9826c74350bfe67783f7333404a244 ^ 0xe62f327ccd5792dd893fe9ca40603f62 ^ 0xcc8095241ae41171f5f3f531d2d9fe98 ^ 0x1e8ccb9dcc72f2e1a9cbef8232562fc == 1u128 << 70u128
        &&& 0x804c1cb1eac70f698ab1aeeb3a605920u128 ^ 0xcc8095241ae41171f5f3f531d2d9fe98 ^ 0xab52f0323f47c90be1336bc7d453b626 ^ 0xe5da5595ee970b89929959af766af512 ^ 0x2442c3221f3dc1a0ce869b24a80e48c == 1u128 << 71u128
        &&& 0x4e983687d159ce9677cb863e8acc5944u128 ^ 0xe5da5595ee970b89929959af766af512 ^ 0x2abe34bad75338b479a6a089abf4573a ^ 0x4e983687d159ce9677cb862e8ac85944 ^ 0xcf64612f39c4323deb3ff936dd9aa228 == 1u128 << 72u128
        &&& 0xa94f4b3252499e01e04514377dbd55aau128 ^ 0x4e983687d159ce9677cb862e8ac85944 ^ 0x1e8ccb9dcc72f2e1a9cbef8232562fc ^ 0x2aaea79ad7da34b07dc714cb83074a4a ^ 0xcc911696880d4909f0d5382a57572458 == 1u128 << 73u128
        &&& 0xcf74f70e70ef2af7ef6fd23d2af671a4u128 ^ 0x2aaea79ad7da34b07dc714cb83074a4a ^ 0x2442c3221f3dc1a0ce869b24a80e48c ^ 0xaae2ab6aaf144aaff73fcb3c06aaf756 ^ 0x4d7cd7cc29d28cf2697f6478e5db2834 == 1u128 << 74u128
        &&& 0xe7d77da5831189d3978a93f3f56f619eu128 ^ 0xaae2ab6aaf144aaff73fcb3c06aaf756 ^ 0xcf64612f39c4323deb3ff936dd9aa228 ^ 0x4e9826c74350bfe67783f7333404b244 ^ 0xccc99127569146a7fc0956ca1a5b86a4 == 1u128 << 75u128
        &&& 0x1e8ccb9dcc72f2e1a9cbeb8232d62fcu128 ^ 0x4e9826c74350bfe67783f7333404b244 ^ 0xcc911696880d4909f0d5382a57572458 ^ 0xe62f327ccd5792dd893fe9ca40601f62 ^ 0x65cece94dacd5b1c14f5986b001eeb82 == 1u128 << 76u128
        &&& 0x4cdd0f362b68e52a7a5109eab0a16ef4u128 ^ 0xe62f327ccd5792dd893fe9ca40601f62 ^ 0x4d7cd7cc29d28cf2697f6478e5db2834 ^ 0xcc8095241ae41171f5f3f531d2d9be98 ^ 0x2b0e7fa2d509ca746fe27169c7c3e73a == 1u128 << 77u128
        &&& 0xcec4b9173b16cdf9f91a9d0499490f58u128 ^ 0xcc8095241ae41171f5f3f531d2d9be98 ^ 0xccc99127569146a7fc0956ca1a5b86a4 ^ 0xab52f0323f47c90be1336bc7d4533626 ^ 0x65df4d264824132411d3553885980142 == 1u128 << 78u128
        &&& 0xe4329c3d7bf233698830781e88d05912u128 ^ 0xab52f0323f47c90be1336bc7d4533626 ^ 0x65cece94dacd5b1c14f5986b001eeb82 ^ 0xe5da5595ee970b89929959af766bf512 ^ 0xcf74f70e70ef2af7ef6fd21d2af671a4 == 1u128 << 79u128
        &&& 0x2aaea79ad7da34b07dc715cb83174a4au128 ^ 0xe5da5595ee970b89929959af766bf512 ^ 0x2b0e7fa2d509ca746fe27169c7c3e73a ^ 0x2abe34bad75338b479a6a089abf6573a ^ 0xcec4b9173b16cdf9f91a9d8499490f58 == 1u128 << 80u128
        &&& 0x82082082597387418618bcbfcff334e0u128 ^ 0x2abe34bad75338b479a6a089abf6573a ^ 0x65df4d264824132411d3553885980142 ^ 0x4e983687d159ce9677cb862e8acc5944 ^ 0x83f16f99175f624799a6cf206b513bdc == 1u128 << 81u128
        &&& 0x83f16f99175f624799a6cd206b513bdcu128 ^ 0x4e983687d159ce9677cb862e8acc5944 ^ 0xcf74f70e70ef2af7ef6fd21d2af671a4 ^ 0x1e8ccb9dcc72f2e1a9cbef8232d62fc ^ 0x3f562a96a2aa9081b9e27ebe84671c0 == 1u128 << 82u128
        &&& 0x294b124ed1181a846297e291f4adcc3au128 ^ 0x1e8ccb9dcc72f2e1a9cbef8232d62fc ^ 0xcec4b9173b16cdf9f91a9d8499490f58 ^ 0x2aaea79ad7da34b07dc714cb83174a4a ^ 0xccc9c07ae11bcce3fcd6d526cddeebd4 == 1u128 << 83u128
        &&& 0x2442c3221f3dc1a0ce86db24aa0e48cu128 ^ 0x2aaea79ad7da34b07dc714cb83174a4a ^ 0x83f16f99175f624799a6cf206b513bdc ^ 0x2442c3221f3dc1a0ce869b24aa0e48c ^ 0xa95fc803c09556f7e461dfebe8467196 == 1u128 << 84u128
        &&& 0xe78fff41144664939b696b666550119eu128 ^ 0x2442c3221f3dc1a0ce869b24aa0e48c ^ 0x3f562a96a2aa9081b9e27ebe84671c0 ^ 0xaae2ab6aaf144aaff73fcb3c06eaf756 ^ 0x4cdc1ab0f0ab5b2e7b20ee03c15c7384 == 1u128 << 85u128
        &&& 0x3f562a96a2aa9081b9e2febe84671c0u128 ^ 0xaae2ab6aaf144aaff73fcb3c06eaf756 ^ 0xccc9c07ae11bcce3fcd6d526cddeebd4 ^ 0xcf64612f39c4323deb3ff936dd1aa228 ^ 0xaaba68961da11d79fb48c8c7fe68cf6a == 1u128 << 86u128
        &&& 0xcd78dbfd54a1436beb568d9e63d55a14u128 ^ 0xcf64612f39c4323deb3ff936dd1aa228 ^ 0xa95fc803c09556f7e461dfebe8467196 ^ 0x4e9826c74350bfe67783f7333504b244 ^ 0xe5db5416ee209847938b5c70638d3bee == 1u128 << 87u128
        &&& 0xaae2ab6aaf144aaff73fdb3c06eaf756u128 ^ 0x4e9826c74350bfe67783f7333504b244 ^ 0x4cdc1ab0f0ab5b2e7b20ee03c15c7384 ^ 0xcc911696880d4909f0d5382a55572458 ^ 0x6437818b95e2e76e0b49fa26a7e512ce == 1u128 << 88u128
        &&& 0xccdd4e7b1ce38d0ffacabbbeed722b64u128 ^ 0xcc911696880d4909f0d5382a55572458 ^ 0xaaba68961da11d79fb48c8c7fe68cf6a ^ 0xe62f327ccd5792dd893fe9ca44601f62 ^ 0x4cd9020746184ba27868a299022ddf34 == 1u128 << 89u128
        &&& 0xccc9c07ae11bcce3fcd6f526cddeebd4u128 ^ 0xe62f327ccd5792dd893fe9ca44601f62 ^ 0xe5db5416ee209847938b5c70638d3bee ^ 0x4d7cd7cc29d28cf2697f6478eddb2834 ^ 0x824171dcefbe4a8b8f1d24e407e8e76c == 1u128 << 90u128
        &&& 0x3e5e1ccb1bf89c61fb4754fa43bbf3cu128 ^ 0x4d7cd7cc29d28cf2697f6478eddb2834 ^ 0x6437818b95e2e76e0b49fa26a7e512ce ^ 0xcc8095241ae41171f5f3f531c2d9be98 ^ 0xe62e22af1f6bf32b88711e202cdc3b5e == 1u128 << 91u128
        &&& 0xcf64612f39c4323deb3fb936dd1aa228u128 ^ 0xcc8095241ae41171f5f3f531c2d9be98 ^ 0x4cd9020746184ba27868a299022ddf34 ^ 0xccc99127569146a7fc0956ca3a5b86a4 ^ 0x83f4672b23a92e499aadb85427b54520 == 1u128 << 92u128
        &&& 0xe5da00893461b455926f68f4172caea2u128 ^ 0xccc99127569146a7fc0956ca3a5b86a4 ^ 0x824171dcefbe4a8b8f1d24e407e8e76c ^ 0xab52f0323f47c90be1336bc794533626 ^ 0x1040920971720048711dbeccf94c == 1u128 << 93u128
        &&& 0xa95fc803c09556f7e4615febe8467196u128 ^ 0xab52f0323f47c90be1336bc794533626 ^ 0xe62e22af1f6bf32b88711e202cdc3b5e ^ 0x65cece94dacd5b1c14f5986b801eeb82 ^ 0x81edd40a7a7437cb99d6b267d0d7976c == 1u128 << 94u128
        &&& 0xe78ae2a77b3e87b1981cf1dccb9d1fd2u128 ^ 0x65cece94dacd5b1c14f5986b801eeb82 ^ 0x83f4672b23a92e499aadb85427b54520 ^ 0xe5da5595ee970b89929959ae766bf512 ^ 0xe46a1e8deccdf96d84dd884d1a5d4462 == 1u128 << 95u128
        &&& 0x4e9826c74350bfe67782f7333504b244u128 ^ 0xe5da5595ee970b89929959ae766bf512 ^ 0x1040920971720048711dbeccf94c ^ 0x2b0e7fa2d509ca746fe2716bc7c3e73a ^ 0x804c1cb1eac70f698ab1aeeb3a605920 == 1u128 << 96u128
        &&& 0x2912d4222a675b0a6fd777b6c15f72c6u128 ^ 0x2b0e7fa2d509ca746fe2716bc7c3e73a ^ 0x81edd40a7a7437cb99d6b267d0d7976c ^ 0x2abe34bad75338b479a6a08dabf6573a ^ 0xa94f4b3252499e01e04514377dbd55aa == 1u128 << 97u128
        &&& 0x4cdc1ab0f0ab5b2e7b22ee03c15c7384u128 ^ 0x2abe34bad75338b479a6a08dabf6573a ^ 0xe46a1e8deccdf96d84dd884d1a5d4462 ^ 0x65df4d264824132411d3553085980142 ^ 0xe7d77da5831189d3978a93f3f56f619e == 1u128 << 98u128
        &&& 0xe7d6682e58d237f196f8740f85956fd2u128 ^ 0x65df4d264824132411d3553085980142 ^ 0x804c1cb1eac70f698ab1aeeb3a605920 ^ 0x4e983687d159ce9677cb863e8acc5944 ^ 0x4cdd0f362b68e52a7a5109eab0a16ef4 == 1u128 << 99u128
        &&& 0xcc911696880d4909f0d1382a55572458u128 ^ 0x4e983687d159ce9677cb863e8acc5944 ^ 0xa94f4b3252499e01e04514377dbd55aa ^ 0xcf74f70e70ef2af7ef6fd23d2af671a4 ^ 0xe4329c3d7bf233698830781e88d05912 == 1u128 << 100u128
        &&& 0xab4366b0764a0b4be46143c933474626u128 ^ 0xcf74f70e70ef2af7ef6fd23d2af671a4 ^ 0xe7d77da5831189d3978a93f3f56f619e ^ 0x1e8ccb9dcc72f2e1a9cbeb8232d62fc ^ 0x82082082597387418618bcbfcff334e0 == 1u128 << 101u128
        &&& 0xaaba68961da11d79fb40c8c7fe68cf6au128 ^ 0x1e8ccb9dcc72f2e1a9cbeb8232d62fc ^ 0x4cdd0f362b68e52a7a5109eab0a16ef4 ^ 0xcec4b9173b16cdf9f91a9d0499490f58 ^ 0x294b124ed1181a846297e291f4adcc3a == 1u128 << 102u128
        &&& 0xe7d77d718378aeb397849bb7f7de0d9eu128 ^ 0xcec4b9173b16cdf9f91a9d0499490f58 ^ 0xe4329c3d7bf233698830781e88d05912 ^ 0x2aaea79ad7da34b07dc715cb83174a4a ^ 0xe78fff41144664939b696b666550119e == 1u128 << 103u128
        &&& 0xe62f327ccd5792dd892fe9ca44601f62u128 ^ 0x2aaea79ad7da34b07dc715cb83174a4a ^ 0x82082082597387418618bcbfcff334e0 ^ 0x83f16f99175f624799a6cd206b513bdc ^ 0xcd78dbfd54a1436beb568d9e63d55a14 == 1u128 << 104u128
        &&& 0x64231d9efb5729d60d13f9bd382e380eu128 ^ 0x83f16f99175f624799a6cd206b513bdc ^ 0x294b124ed1181a846297e291f4adcc3a ^ 0x2442c3221f3dc1a0ce86db24aa0e48c ^ 0xccdd4e7b1ce38d0ffacabbbeed722b64 == 1u128 << 105u128
        &&& 0xe5db5416ee20984793ab5c70638d3beeu128 ^ 0x2442c3221f3dc1a0ce86db24aa0e48c ^ 0xe78fff41144664939b696b666550119e ^ 0x3f562a96a2aa9081b9e2febe84671c0 ^ 0x3e5e1ccb1bf89c61fb4754fa43bbf3c == 1u128 << 106u128
        &&& 0x81b51ab7a5fe1499959811bd9a557220u128 ^ 0x3f562a96a2aa9081b9e2febe84671c0 ^ 0xcd78dbfd54a1436beb568d9e63d55a14 ^ 0xaae2ab6aaf144aaff73fdb3c06eaf756 ^ 0xe5da00893461b455926f68f4172caea2 == 1u128 << 107u128
        &&& 0x4d7cd7cc29d28cf2693f6478eddb2834u128 ^ 0xaae2ab6aaf144aaff73fdb3c06eaf756 ^ 0xccdd4e7b1ce38d0ffacabbbeed722b64 ^ 0xccc9c07ae11bcce3fcd6f526cddeebd4 ^ 0xe78ae2a77b3e87b1981cf1dccb9d1fd2 == 1u128 << 108u128
        &&& 0x295ab4bb43072c12678a4ee975a08406u128 ^ 0xccc9c07ae11bcce3fcd6f526cddeebd4 ^ 0x3e5e1ccb1bf89c61fb4754fa43bbf3c ^ 0xcf64612f39c4323deb3fb936dd1aa228 ^ 0x2912d4222a675b0a6fd777b6c15f72c6 == 1u128 << 109u128
        &&& 0x6437818b95e2e76e0bc9fa26a7e512ceu128 ^ 0xcf64612f39c4323deb3fb936dd1aa228 ^ 0xe5da00893461b455926f68f4172caea2 ^ 0xa95fc803c09556f7e4615febe8467196 ^ 0xe7d6682e58d237f196f8740f85956fd2 == 1u128 << 110u128
        &&& 0xab0eead38eb165ebef9e1acd25989a26u128 ^ 0xa95fc803c09556f7e4615febe8467196 ^ 0xe78ae2a77b3e87b1981cf1dccb9d1fd2 ^ 0x4e9826c74350bfe67782f7333504b244 ^ 0xab4366b0764a0b4be46143c933474626 == 1u128 << 111u128
        &&& 0xcc8095241ae41171f4f3f531c2d9be98u128 ^ 0x4e9826c74350bfe67782f7333504b244 ^ 0x2912d4222a675b0a6fd777b6c15f72c6 ^ 0x4cdc1ab0f0ab5b2e7b22ee03c15c7384 ^ 0xe7d77d718378aeb397849bb7f7de0d9e == 1u128 << 112u128
        &&& 0x3ba7996db230c0010185b9b29b00000u128 ^ 0x4cdc1ab0f0ab5b2e7b22ee03c15c7384 ^ 0xe7d6682e58d237f196f8740f85956fd2 ^ 0xcc911696880d4909f0d1382a55572458 ^ 0x64231d9efb5729d60d13f9bd382e380e == 1u128 << 113u128
        &&& 0x4cd9020746184ba27a68a299022ddf34u128 ^ 0xcc911696880d4909f0d1382a55572458 ^ 0xab4366b0764a0b4be46143c933474626 ^ 0xaaba68961da11d79fb40c8c7fe68cf6a ^ 0x81b51ab7a5fe1499959811bd9a557220 == 1u128 << 114u128
        &&& 0x8210932010890d058261f45338765990u128 ^ 0xaaba68961da11d79fb40c8c7fe68cf6a ^ 0xe7d77d718378aeb397849bb7f7de0d9e ^ 0xe62f327ccd5792dd892fe9ca44601f62 ^ 0x295ab4bb43072c12678a4ee975a08406 == 1u128 << 115u128
        &&& 0xccc99127569146a7f80956ca3a5b86a4u128 ^ 0xe62f327ccd5792dd892fe9ca44601f62 ^ 0x64231d9efb5729d60d13f9bd382e380e ^ 0xe5db5416ee20984793ab5c70638d3bee ^ 0xab0eead38eb165ebef9e1acd25989a26 == 1u128 << 116u128
        &&& 0x2a88e0fbb92f0c2c7f14722e3db361fau128 ^ 0xe5db5416ee20984793ab5c70638d3bee ^ 0x81b51ab7a5fe1499959811bd9a557220 ^ 0x4d7cd7cc29d28cf2693f6478eddb2834 ^ 0x3ba7996db230c0010185b9b29b00000 == 1u128 << 117u128
        &&& 0x824171dcefbe4a8b871d24e407e8e76cu128 ^ 0x4d7cd7cc29d28cf2693f6478eddb2834 ^ 0x295ab4bb43072c12678a4ee975a08406 ^ 0x6437818b95e2e76e0bc9fa26a7e512ce ^ 0x8210932010890d058261f45338765990 == 1u128 << 118u128
        &&& 0x29b11e87b8989fd86fb067f47d17578au128 ^ 0x6437818b95e2e76e0bc9fa26a7e512ce ^ 0xab0eead38eb165ebef9e1acd25989a26 ^ 0xcc8095241ae41171f4f3f531c2d9be98 ^ 0x2a88e0fbb92f0c2c7f14722e3db361fa == 1u128 << 119u128
        &&& 0xab52f0323f47c90bf1336bc794533626u128 ^ 0xcc8095241ae41171f4f3f531c2d9be98 ^ 0x3ba7996db230c0010185b9b29b00000 ^ 0x4cd9020746184ba27a68a299022ddf34 ^ 0x29b11e87b8989fd86fb067f47d17578a == 1u128 << 120u128
        &&& 0x0u128 ^ 0x4cd9020746184ba27a68a299022ddf34 ^ 0x8210932010890d058261f45338765990 ^ 0xccc99127569146a7f80956ca3a5b86a4 ^ 0x0 == 1u128 << 121u128
        &&& 0xe62e22af1f6bf32ba8711e202cdc3b5eu128 ^ 0xccc99127569146a7f80956ca3a5b86a4 ^ 0x2a88e0fbb92f0c2c7f14722e3db361fa ^ 0x824171dcefbe4a8b871d24e407e8e76c ^ 0x862e22af1f6bf32ba8711e202cdc3b6c == 1u128 << 122u128
        &&& 0x862e22af1f6bf32ba8711e202cdc3b6cu128 ^ 0x824171dcefbe4a8b871d24e407e8e76c ^ 0x29b11e87b8989fd86fb067f47d17578a ^ 0xab52f0323f47c90bf1336bc794533626 ^ 0x8e8cbdc6770aef73b1ef36f7c270bdac == 1u128 << 123u128
        &&& 0x65cece94dacd5b1c54f5986b801eeb82u128 ^ 0xab52f0323f47c90bf1336bc794533626 ^ 0x0 ^ 0xe62e22af1f6bf32ba8711e202cdc3b5e ^ 0x38b21c09fae1613c0db7ed8c3891e6fa == 1u128 << 124u128
        &&& 0x8e8cbdc6770aef73b1ef36f7c270bdacu128 ^ 0xe62e22af1f6bf32ba8711e202cdc3b5e ^ 0x862e22af1f6bf32ba8711e202cdc3b6c ^ 0x65cece94dacd5b1c54f5986b801eeb82 ^ 0xe5da5595ee970b89929959af766af404 ^ 0xe5da5595ee970b89929959af766af406 ^ 0x4e9826c74350bfe67783f7333404a20c ^ 0xe5da5595ee970b89929959af766af412 == 1u128 << 125u128
        &&& 0x83f4672b23a92e491aadb85427b54520u128 ^ 0x65cece94dacd5b1c54f5986b801eeb82 ^ 0x8e8cbdc6770aef73b1ef36f7c270bdac ^ 0x83f4672b23a92e491aadb85427b54520 ^ 0x4e9826c74350bfe67783f7333404a20c ^ 0xe5da5595ee970b89929959af766af402 ^ 0x2aaea79ad7da34b07dc714cb83074e6a ^ 0x2aaea79ad7da34b07dc714cb83074e4a == 1u128 << 126u128
        &&& 0x38b21c09fae1613c0db7ed8c3891e6fau128 ^ 0x83f4672b23a92e491aadb85427b54520 ^ 0x38b21c09fae1613c0db7ed8c3891e6fa ^ 0x295ac0b1f4731af9676aac9fa4b20b08 ^ 0xe5da5595ee970b89929959af766af404 ^ 0xe5da5595ee970b89929959af766af406 ^ 0x2aaea79ad7da34b07dc714cb83074e6a ^ 0x4e9826c74350bfe67783f7333404a204 ^ 0x4e9826c74350bfe67783f7333404a244 == 1u128 << 127u128
    }) by (bit_vector);
    assert(column_steps(0));
    assert(column_step(0));
    assert(column_steps(1));
    assert(column_step(1));
    assert(column_steps(2));
    assert(column_step(2));
    assert(column_steps(3));
    assert(column_step(3));
    assert(column_steps(4));
    assert(column_step(4));
    assert(column_steps(5));
    assert(column_step(5));
    assert(column_steps(6));
    assert(column_step(6));
    assert(column_steps(7));
    assert(column_step(7));
    assert(column_steps(8));
    assert(column_step(8));
    assert(column_steps(9));
    assert(column_step(9));
    assert(column_steps(10));
    assert(column_step(10));
    assert(column_steps(11));
    assert(column_step(11));
    assert(column_steps(12));
    assert(column_step(12));
    assert(column_steps(13));
    assert(column_step(13));
    assert(column_steps(14));
    assert(column_step(14));
    assert(column_steps(15));
    assert(column_step(15));
    assert(column_steps(16));
    assert(column_step(16));
    assert(column_steps(17));
    assert(column_step(17));
    assert(column_steps(18));
    assert(column_step(18));
    assert(column_steps(19));
    assert(column_step(19));
    assert(column_steps(20));
    assert(column_step(20));
    assert(column_steps(21));
    assert(column_step(21));
    assert(column_steps(22));
    assert(column_step(22));
    assert(column_steps(23));
    assert(column_step(23));
    assert(column_steps(24));
    assert(column_step(24));
    assert(column_steps(25));
    assert(column_step(25));
    assert(column_steps(26));
    assert(column_step(26));
    assert(column_steps(27));
    assert(column_step(27));
    assert(column_steps(28));
    assert(column_step(28));
    assert(column_steps(29));
    assert(column_step(29));
    assert(column_steps(30));
    assert(column_step(30));
    assert(column_steps(31));
    assert(column_step(31));
    assert(column_steps(32));
    assert(column_step(32));
    assert(column_steps(33));
    assert(column_step(33));
    assert(column_steps(34));
    assert(column_step(34));
    assert(column_steps(35));
    assert(column_step(35));
    assert(column_steps(36));
    assert(column_step(36));
    assert(column_steps(37));
    assert(column_step(37));
    assert(column_steps(38));
    assert(column_step(38));
    assert(column_steps(39));
    assert(column_step(39));
    assert(column_steps(40));
    assert(column_step(40));
    assert(column_steps(41));
    assert(column_step(41));
    assert(column_steps(42));
    assert(column_step(42));
    assert(column_steps(43));
    assert(column_step(43));
    assert(column_steps(44));
    assert(column_step(44));
    assert(column_steps(45));
    assert(column_step(45));
    assert(column_steps(46));
    assert(column_step(46));
    assert(column_steps(47));
    assert(column_step(47));
    assert(column_steps(48));
    assert(column_step(48));
    assert(column_steps(49));
    assert(column_step(49));
    assert(column_steps(50));
    assert(column_step(50));
    assert(column_steps(51));
    assert(column_step(51));
    assert(column_steps(52));
    assert(column_step(52));
    assert(column_steps(53));
    assert(column_step(53));
    assert(column_steps(54));
    assert(column_step(54));
    assert(column_steps(55));
    assert(column_step(55));
    assert(column_steps(56));
    assert(column_step(56));
    assert(column_steps(57));
    assert(column_step(57));
    assert(column_steps(58));
    assert(column_step(58));
    assert(column_steps(59));
    assert(column_step(59));
    assert(column_steps(60));
    assert(column_step(60));
    assert(column_steps(61));
    assert(column_step(61));
    assert(column_steps(62));
    assert(column_step(62));
    assert(column_steps(63));
    assert(column_step(63));
    assert(column_steps(64));
    assert(column_step(64));
    assert(column_steps(65));
    assert(column_step(65));
    assert(column_steps(66));
    assert(column_step(66));
    assert(column_steps(67));
    assert(column_step(67));
    assert(column_steps(68));
    assert(column_step(68));
    assert(column_steps(69));
    assert(column_step(69));
    assert(column_steps(70));
    assert(column_step(70));
    assert(column_steps(71));
    assert(column_step(71));
    assert(column_steps(72));
    assert(column_step(72));
    assert(column_steps(73));
    assert(column_step(73));
    assert(column_steps(74));
    assert(column_step(74));
    assert(column_steps(75));
    assert(column_step(75));
    assert(column_steps(76));
    assert(column_step(76));
    assert(column_steps(77));
    assert(column_step(77));
    assert(column_steps(78));
    assert(column_step(78));
    assert(column_steps(79));
    assert(column_step(79));
    assert(column_steps(80));
    assert(column_step(80));
    assert(column_steps(81));
    assert(column_step(81));
    assert(column_steps(82));
    assert(column_step(82));
    assert(column_steps(83));
    assert(column_step(83));
    assert(column_steps(84));
    assert(column_step(84));
    assert(column_steps(85));
    assert(column_step(85));
    assert(column_steps(86));
    assert(column_step(86));
    assert(column_steps(87));
    assert(column_step(87));
    assert(column_steps(88));
    assert(column_step(88));
    assert(column_steps(89));
    assert(column_step(89));
    assert(column_steps(90));
    assert(column_step(90));
    assert(column_steps(91));
    assert(column_step(91));
    assert(column_steps(92));
    assert(column_step(92));
    assert(column_steps(93));
    assert(column_step(93));
    assert(column_steps(94));
    assert(column_step(94));
    assert(column_steps(95));
    assert(column_step(95));
    assert(column_steps(96));
    assert(column_step(96));
    assert(column_steps(97));
    assert(column_step(97));
    assert(column_steps(98));
    assert(column_step(98));
    assert(column_steps(99));
    assert(column_step(99));
    assert(column_steps(100));
    assert(column_step(100));
    assert(column_steps(101));
    assert(column_step(101));
    assert(column_steps(102));
    assert(column_step(102));
    assert(column_steps(103));
    assert(column_step(103));
    assert(column_steps(104));
    assert(column_step(104));
    assert(column_steps(105));
    assert(column_step(105));
    assert(column_steps(106));
    assert(column_step(106));
    assert(column_steps(107));
    assert(column_step(107));
    assert(column_steps(108));
    assert(column_step(108));
    assert(column_steps(109));
    assert(column_step(109));
    assert(column_steps(110));
    assert(column_step(110));
    assert(column_steps(111));
    assert(column_step(111));
    assert(column_steps(112));
    assert(column_step(112));
    assert(column_steps(113));
    assert(column_step(113));
    assert(column_steps(114));
    assert(column_step(114));
    assert(column_steps(115));
    assert(column_step(115));
    assert(column_steps(116));
    assert(column_step(116));
    assert(column_steps(117));
    assert(column_step(117));
    assert(column_steps(118));
    assert(column_step(118));
    assert(column_steps(119));
    assert(column_step(119));
    assert(column_steps(120));
    assert(column_step(120));
    assert(column_steps(121));
    assert(column_step(121));
    assert(column_steps(122));
    assert(column_step(122));
    assert(column_steps(123));
    assert(column_step(123));
    assert(column_steps(124));
    assert(column_step(124));
    assert(column_steps(125));
    assert(column_step(125));
    assert(column_steps(126));
    assert(column_step(126));
    assert(column_steps(127));
    assert(column_step(127));
    assert(column_steps(128));
}

/// The single steps.
pub proof fn lemma_column_step(n: nat, j: int)
    requires
        column_steps(n),
        0 <= j < n,
    ensures
        column_step(j),
    decreases n,
{
    if j < n - 1 {
        lemma_column_step((n - 1) as nat, j);
    }
}

/// The single steps.
pub proof fn lemma_conjugate_step(n: nat, j: int)
    requires
        conjugate_steps(n),
        0 <= j < n,
    ensures
        conjugate_step(j),
    decreases n,
{
    if j < n - 1 {
        lemma_conjugate_step((n - 1) as nat, j);
    }
}

} // verus!
