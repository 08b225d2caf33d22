use softfp::float::div::div;
use softfp::float::formats::{F128, F16};
use softfp::float::mul::mul;

/// Pairs of binary16 patterns and their product, rounded from the exact one.
fn f16_products() -> Vec<(u16, u16, u16)> {
    vec![
        (0xc55a, 0xcf00, 0x58af),
        (0x83de, 0x5e6a, 0xa633),
        (0x3b00, 0x4de4, 0x4d28),
        (0x1fcf, 0x6834, 0x4c1a),
        (0x4c80, 0x158d, 0x263f),
        (0xbf0, 0x3c00, 0xbf0),
        (0xf730, 0xd100, 0x7c00),
        (0x9f2e, 0xa9df, 0xd45),
        (0xef00, 0xf9fb, 0x7c00),
        (0x85fa, 0x9248, 0x1),
        (0x7763, 0x3fc9, 0x7b30),
        (0x41bb, 0x8163, 0x83f9),
        (0x604a, 0x8177, 0xa248),
        (0xb2e7, 0x5cff, 0xd450),
        (0x242, 0x70fa, 0x359e),
        (0xe100, 0x808a, 0x1d64),
        (0xaf1a, 0xcc31, 0x3f71),
        (0xab84, 0xc289, 0x3224),
        (0x3500, 0xe98c, 0xe2ef),
        (0x8244, 0xf3ff, 0x3887),
        (0xfa8c, 0x8680, 0x4552),
        (0x6d09, 0x8d1e, 0xbe71),
        (0xea70, 0x1339, 0xc1d0),
        (0xdeef, 0xc8fd, 0x6c53),
        (0xc3d5, 0x9fff, 0x27d4),
        (0x2293, 0x83da, 0x800d),
        (0x5922, 0x6000, 0x7c00),
        (0x18e, 0x3e3b, 0x26c),
        (0x2f86, 0x8761, 0x80de),
        (0xd2e8, 0xf69c, 0x7c00),
        (0xb49f, 0xc180, 0x3a5b),
        (0x55ed, 0xcf73, 0xe985),
        (0x317, 0x190a, 0x2),
        (0x49a7, 0x819e, 0x8c92),
        (0x7b84, 0x8345, 0xc225),
        (0xe880, 0xdad5, 0x7c00),
        (0x8074, 0xca80, 0x5e4),
        (0x1454, 0xa8e, 0x4),
        (0x7980, 0xb8ff, 0xf6df),
        (0x8900, 0x8a80, 0x1),
        (0x8407, 0xde83, 0x268e),
        (0x3880, 0x777f, 0x7437),
        (0x3100, 0x6c73, 0x6190),
        (0xd33c, 0x6ff, 0x9e54),
        (0x7b22, 0x224f, 0x61a0),
        (0x5800, 0x3cc1, 0x58c1),
        (0xf0ff, 0x580, 0xbadf),
        (0xcf94, 0x9dd3, 0x3184),
        (0xdb15, 0x35d, 0xa1f4),
        (0x803, 0x477b, 0x1381),
        (0x374, 0x33a0, 0xd3),
        (0xb972, 0x72ff, 0xf0c3),
        (0x7af9, 0x6161, 0x7c00),
        (0x8101, 0x8706, 0x0),
        (0x82b5, 0x261c, 0x8011),
        (0xfb2d, 0x5edd, 0xfc00),
        (0xc79a, 0xbc7, 0x9764),
        (0xf7d2, 0xaffe, 0x6bd0),
        (0x4ad, 0xf0ff, 0xb9d7),
        (0xe580, 0x813d, 0x26d0),
        (0xa5f1, 0xbb1a, 0x2546),
        (0x4380, 0x4a2b, 0x51c8),
        (0x3fe8, 0x764f, 0x7a3c),
        (0xc997, 0x52f0, 0xe0d9),
        (0xa342, 0x4f43, 0xb697),
        (0x8173, 0x1232, 0x8000),
        (0xfb, 0x41f5, 0x2ec),
        (0x6b6d, 0xefd3, 0xfc00),
        (0xd7d5, 0xfb99, 0x7c00),
        (0x2d80, 0x452a, 0x371a),
        (0x173f, 0x85fe, 0x8003),
        (0xc62, 0x247, 0x0),
        (0x804d, 0x51e1, 0x8b13),
        (0x98a6, 0x304, 0x8002),
        (0x4bff, 0xcc99, 0xdc98),
        (0xc900, 0xca9c, 0x5822),
        (0x5652, 0x79ff, 0x7c00),
        (0x131e, 0xdb63, 0xb292),
        (0x7aff, 0x9324, 0xd23f),
        (0x946b, 0x1c4, 0x8000),
        (0xb880, 0xf1ff, 0x6ebf),
        (0x58c0, 0xe830, 0xfc00),
        (0x27ff, 0x2a8a, 0x1689),
        (0x8dff, 0xbe74, 0x10d6),
        (0x71e2, 0x2b80, 0x6184),
        (0xe264, 0x2cff, 0xd3fb),
        (0x879d, 0x27e6, 0x803c),
        (0xa84, 0xceef, 0x9da6),
        (0xfb1f, 0x7520, 0xfc00),
        (0x8005, 0x55d, 0x8000),
        (0x1f09, 0xc4a9, 0xa819),
        (0x47e, 0x7b65, 0x4427),
        (0x4c7e, 0xc4ce, 0xd565),
        (0x717f, 0x16e, 0x33dc),
        (0x3ea2, 0x41d2, 0x44d3),
        (0x8680, 0x3f74, 0x8a0e),
        (0x82be, 0xf902, 0x3ede),
        (0x21e0, 0xa2ff, 0x8923),
        (0x2200, 0x724a, 0x58b8),
        (0xd500, 0xd5ff, 0x6f7f),
        (0x3900, 0xe9b1, 0xe71d),
        (0xf9cc, 0x3100, 0xef3f),
        (0x8b5c, 0xc139, 0x10ce),
        (0x5a, 0xf780, 0xb146),
        (0xb4ff, 0x5555, 0xcea9),
        (0x3eb, 0xf280, 0xba5e),
        (0x6352, 0xc0a1, 0xe83c),
        (0xb1ff, 0x8033, 0xa),
        (0xa18f, 0x85b, 0x8018),
        (0x6a00, 0x44b, 0x3270),
        (0x5ae, 0x49, 0x0),
        (0xec00, 0x823d, 0x307a),
        (0x91a7, 0x800c, 0x0),
        (0x2193, 0xb080, 0x9645),
        (0x41dc, 0x6d, 0x13f),
        (0x956, 0x531b, 0x20bd),
        (0x1700, 0x3199, 0xce6),
        (0xbbb6, 0x8103, 0xfa),
        (0x8979, 0x7700, 0xc4ca),
        (0x5cff, 0x7a8a, 0x7c00),
        (0xc0cf, 0xddc5, 0x62f0),
        (0x37b, 0xbc63, 0x83d1),
        (0xbc83, 0x57bb, 0xd85c),
        (0x1f00, 0xd080, 0xb3e0),
        (0x1c91, 0x8020, 0x8000),
        (0x996, 0x4680, 0x148a),
        (0x30ff, 0x3d64, 0x32bc),
        (0xa643, 0x5986, 0xc453),
        (0xb280, 0x354f, 0xac50),
        (0x7761, 0xdff, 0x4988),
        (0x34ae, 0x1e2, 0x8d),
        (0xcd80, 0xabe, 0x9ca3),
        (0x3ebc, 0x357, 0x59f),
        (0x8804, 0xde7e, 0x2a84),
        (0xdf73, 0x25f, 0xa46a),
        (0x7966, 0xf8a7, 0xfc00),
        (0x5280, 0x3cff, 0x540f),
        (0x3f0f, 0x83a2, 0x8669),
        (0x4f17, 0xfb80, 0xfc00),
        (0x487d, 0x77a6, 0x7c00),
        (0x38dd, 0xb20f, 0xaf5e),
        (0x77ff, 0xc100, 0xfc00),
        (0x8874, 0xf654, 0x430c),
        (0x6580, 0x81cf, 0xa8f9),
        (0xa889, 0xabff, 0x1888),
        (0xc17e, 0x25e1, 0xac09),
        (0xbfba, 0xfb36, 0x7c00),
        (0x214, 0x807a, 0x8000),
        (0x92ff, 0xc4ff, 0x1c5f),
        (0x643b, 0x81e8, 0xa808),
        (0xd700, 0x3dba, 0xd903),
        (0x580, 0x1755, 0x3),
        (0x80c6, 0x1480, 0x8000),
        (0xf8ff, 0xbf80, 0x7c00),
        (0x6aff, 0x83e1, 0xb2c9),
        (0xbe45, 0xfa67, 0x7c00),
        (0x6cff, 0xe7e, 0x400e),
        (0xdca3, 0x2500, 0xc5cc),
        (0x7916, 0xde80, 0xfc00),
        (0x88d5, 0x1ed6, 0x8011),
        (0x2d5, 0xfb2f, 0xc116),
        (0x38e, 0x9544, 0x8001),
        (0xcf0, 0xad3c, 0x819e),
        (0x5380, 0x21a, 0x17e2),
        (0x83ff, 0x8768, 0x0),
        (0x8c5a, 0x7a71, 0xcb02),
        (0x1589, 0x1eff, 0x9b),
        (0x8165, 0xc611, 0x83b),
        (0x835f, 0x9cb2, 0x4),
        (0x6877, 0x1f00, 0x4bd0),
        (0xff, 0x5519, 0x1514),
        (0x99b7, 0x7680, 0xd4a5),
        (0x3df2, 0xe0cd, 0xe323),
        (0x123, 0x52c, 0x0),
        (0x9b80, 0x3e1, 0x8004),
        (0xbff9, 0x1a00, 0x9dfb),
        (0x8124, 0xc114, 0x2e5),
        (0x813b, 0x82cc, 0x0),
        (0xc1de, 0x771c, 0xfc00),
        (0x4167, 0xf2cf, 0xf899),
        (0x8da9, 0x554, 0x8000),
        (0xbf5a, 0x91ad, 0x1537),
        (0x79dc, 0xbf85, 0xfc00),
        (0x3b3b, 0x57eb, 0x5728),
        (0x7aff, 0x19a6, 0x58f1),
        (0x14c1, 0xf4ff, 0xcdf0),
        (0x806e, 0x1527, 0x8000),
        (0x7985, 0x85cc, 0xc400),
        (0x818b, 0x802b, 0x0),
        (0x808b, 0x8800, 0x0),
        (0x662e, 0x54e7, 0x7c00),
        (0x81da, 0x9607, 0x1),
        (0xf53b, 0x224b, 0xdc1d),
        (0xcb52, 0x79f9, 0xfc00),
        (0xf510, 0x690f, 0xfc00),
        (0x5780, 0x6c92, 0x7c00),
        (0xa1ff, 0x29f1, 0x9074),
        (0xce5, 0x81bc, 0x8000),
        (0x4580, 0xbcd0, 0xc69e),
        (0x56ff, 0x3cd, 0x1ea6),
        (0x7923, 0xc39f, 0xfc00),
        (0xa00, 0xf600, 0xc480),
        (0xa789, 0x5d20, 0xc8d4),
        (0x5b88, 0x21c0, 0x416a),
        (0x7988, 0x58, 0x339b),
        (0x875a, 0x2a6, 0x8000),
        (0x1bff, 0x6ae, 0x7),
        (0x8dc0, 0x82bd, 0x0),
        (0x84c0, 0x8900, 0x0),
        (0x4074, 0xd366, 0xd81e),
        (0x3eae, 0xa400, 0xa6ae),
        (0x7a2f, 0x1bff, 0x5a2e),
        (0x4864, 0xcacc, 0xd776),
        (0xd5e3, 0x42d5, 0xdd07),
        (0xe9ff, 0xca87, 0x78e4),
        (0xa2a5, 0x52f4, 0xb9c6),
        (0x7480, 0xa080, 0xd910),
        (0x19ff, 0x8b30, 0x800b),
        (0x5b80, 0x3380, 0x5308),
        (0xb416, 0xf989, 0x71a7),
        (0x2deb, 0x7740, 0x695d),
        (0x6300, 0xf915, 0xfc00),
        (0xf90b, 0x7a2e, 0xfc00),
        (0xef80, 0x826a, 0x3487),
        (0xc100, 0x51e, 0x8a66),
        (0xb3b7, 0xcf26, 0x46e5),
        (0xd9ff, 0x45ff, 0xe47f),
        (0x9f3f, 0xd480, 0x3813),
        (0x4cf0, 0x6e00, 0x7c00),
        (0x2fae, 0x8404, 0x807b),
        (0xeeb2, 0x8228, 0x3338),
        (0x16ff, 0x561, 0x2),
        (0x8b3c, 0x85, 0x8000),
        (0xc32c, 0x65e1, 0xed45),
        (0xeff, 0x80c0, 0x8000),
        (0x9f39, 0x2f80, 0x92c5),
        (0xe600, 0x55fd, 0xfc00),
        (0xcda6, 0x92b3, 0x24bb),
        (0xa90b, 0xe40b, 0x5119),
        (0x64e3, 0x7a80, 0x7c00),
        (0xb280, 0xbc7a, 0x3346),
        (0xe8ce, 0xe814, 0x7c00),
        (0x8130, 0x8299, 0x0),
        (0x8eff, 0x8f00, 0x3),
        (0x1000, 0x7b80, 0x4f80),
        (0x4611, 0x8298, 0x8bde),
        (0x9bff, 0x7000, 0xcfff),
        (0x679c, 0x289, 0x2cd3),
        (0xdd17, 0xe734, 0x7c00),
        (0x67, 0x294, 0x0),
        (0x2eff, 0x59, 0xa),
        (0x4168, 0xf280, 0xf864),
        (0x7502, 0x81dc, 0xb8a8),
        (0xe7ff, 0x9647, 0x4246),
        (0xf580, 0xdc36, 0x7c00),
        (0x799d, 0xbdd7, 0xfc00),
        (0x34ff, 0x81b4, 0x8088),
        (0xd1ac, 0x96f7, 0x2cf0),
        (0xbe46, 0x117, 0x81b6),
        (0xb0ff, 0xda23, 0x4faa),
        (0xcaff, 0x8be5, 0x1ae7),
        (0x3fd, 0x82ce, 0x8000),
        (0x4d0c, 0xef11, 0xfc00),
        (0x2b5a, 0x8987, 0x80a3),
        (0x3380, 0xb332, 0xaabf),
        (0x3480, 0x5a3f, 0x5307),
        (0x9096, 0x8f70, 0x4),
        (0xae80, 0x5300, 0xc5b0),
        (0x162, 0x33c, 0x0),
        (0xc2ff, 0x3f0a, 0xc628),
        (0x2b5, 0x1f80, 0x5),
        (0x8996, 0xb5ff, 0x430),
        (0xc700, 0x253c, 0xb094),
        (0xf5f7, 0x3b1, 0xbd81),
        (0xc878, 0xeb99, 0x783e),
        (0x19f, 0xd900, 0x9c0e),
        (0xb6a0, 0xcbdb, 0x4681),
        (0xfb1c, 0x8124, 0x3c0e),
        (0x80, 0x5c52, 0x1852),
        (0xceff, 0xf19c, 0x7c00),
        (0xd772, 0xa1ae, 0x3d49),
        (0xbdd, 0x7bdd, 0x4bbb),
        (0x83f5, 0x356e, 0x8158),
        (0xf9db, 0x731, 0xc543),
        (0x3689, 0x1bb9, 0x164f),
        (0x8a07, 0x5000, 0x9e07),
        (0xf59d, 0x8abd, 0x44ba),
        (0xf6ff, 0x812, 0xc31e),
        (0x84b3, 0x9cd4, 0x6),
        (0x87fd, 0xb16, 0x8000),
        (0x301e, 0x810f, 0x8023),
        (0xf7f, 0x9a95, 0x8019),
        (0x1405, 0x8394, 0x8001),
        (0x79e0, 0x581a, 0x7c00),
        (0xc678, 0x4ec8, 0xd97c),
        (0xaf81, 0x22a6, 0x963c),
        (0xf522, 0x7995, 0xfc00),
        (0x8b22, 0xbc5, 0x8001),
        (0xf25, 0x1dc, 0x0),
        (0x88da, 0x76bf, 0xc417),
        (0x30ff, 0x1580, 0xadf),
        (0x93b5, 0x8354, 0x1),
        (0xc0ff, 0x82a6, 0x69e),
        (0x5aea, 0xabff, 0xcae9),
        (0x9677, 0x100, 0x8000),
        (0x78eb, 0x3000, 0x6ceb),
        (0x964e, 0x4eff, 0xa983),
        (0x384, 0xc49f, 0x8c10),
        (0xdaba, 0xe3da, 0x7c00),
        (0x2e80, 0xe498, 0xd777),
        (0xcdbd, 0x9aff, 0x2d05),
        (0x600, 0x665c, 0x30c5),
        (0xfff, 0xcb2c, 0x9f2b),
        (0xf89d, 0x57ff, 0xfc00),
        (0x78c1, 0xf928, 0xfc00),
        (0xf797, 0x796b, 0xfc00),
        (0xa16f, 0x9a50, 0x225),
        (0x163, 0x5cff, 0x1eee),
        (0xc403, 0x100, 0x8403),
        (0x5a5e, 0x6b3a, 0x7c00),
        (0xfa39, 0x4c99, 0xfc00),
        (0x2e3, 0x26e4, 0x14),
        (0xaff, 0x2a80, 0xb6),
        (0x8b5, 0x782, 0x0),
        (0x39fc, 0x46bf, 0x450c),
        (0x8841, 0x6e80, 0xbaea),
        (0x87b1, 0x4c00, 0x97b1),
        (0x5fff, 0x7980, 0x7c00),
        (0x7825, 0x43fa, 0x7c00),
        (0x202, 0x58e5, 0x1cea),
        (0xfb80, 0xef58, 0x7c00),
        (0x5c6, 0x2081, 0xd),
        (0x8938, 0x2080, 0x8017),
        (0x8105, 0x30ff, 0x8029),
        (0x743, 0x43ee, 0xf33),
        (0xf8ff, 0xddff, 0x7c00),
        (0x8500, 0xdd4, 0x8000),
        (0x8261, 0x3d9, 0x8000),
        (0xddc9, 0x8646, 0x2889),
        (0x8cc8, 0x280, 0x8000),
        (0x8127, 0x8168, 0x0),
        (0x56a9, 0x20d, 0x1ad4),
        (0xa5ff, 0x965b, 0x262),
        (0x2000, 0xf600, 0xda00),
        (0x859c, 0x9d62, 0x8),
        (0xf64d, 0x8b8, 0xc36f),
        (0x7676, 0xfb80, 0xfc00),
        (0xa6e6, 0x42a1, 0xadb7),
        (0xeff, 0x43e1, 0x16e4),
        (0x8a58, 0xf9ff, 0x48c1),
        (0xc27d, 0xfaff, 0x7c00),
        (0x52a1, 0x1604, 0x2cfc),
        (0x82e5, 0x83c0, 0x0),
        (0xcf80, 0xd65f, 0x69f9),
        (0xa7ff, 0x4891, 0xb490),
        (0xe2ff, 0x877c, 0x2e8c),
        (0xd780, 0x8213, 0x1bc7),
        (0x41a7, 0x6749, 0x6d26),
        (0x6d10, 0xa8ff, 0xda53),
        (0x8d8f, 0x4a92, 0x9c91),
        (0x3a80, 0xf954, 0xf854),
        (0x6b00, 0xed0e, 0xfc00),
        (0x1580, 0x7606, 0x5024),
        (0x1fa, 0xf8ff, 0xbcf0),
        (0xc50c, 0x79ad, 0xfc00),
        (0xbddb, 0x7830, 0xfa21),
        (0x16f0, 0x861b, 0x8003),
        (0x7827, 0xe98c, 0xfc00),
        (0x41c4, 0x272, 0x70d),
        (0xd009, 0xd887, 0x6c91),
        (0x81b3, 0xae44, 0x2b),
        (0x807c, 0x194, 0x8000),
        (0x109, 0x7233, 0x326b),
        (0x3f9c, 0x211, 0x3ee),
        (0xbcf8, 0x814a, 0x19a),
        (0x3986, 0x756, 0x511),
        (0x85a8, 0xae28, 0x8b),
        (0x8e80, 0x631d, 0xb5c8),
        (0xb3ff, 0x87a9, 0x1ea),
        (0xee00, 0xb880, 0x6ac0),
        (0x2fb, 0xda58, 0xa0ba),
        (0xa7ff, 0xdf80, 0x4b7f),
        (0xc400, 0xf5ff, 0x7c00),
        (0x8809, 0xeb80, 0x3791),
        (0x27e7, 0x17f0, 0x3ec),
        (0x984b, 0xd2ff, 0x2f82),
        (0x4e8, 0x6fff, 0x38e7),
        (0x82be, 0x9b8, 0x8000),
        (0xbcdd, 0xd100, 0x5214),
        (0xdf86, 0x1602, 0xb9a6),
        (0x5324, 0xd600, 0xed5b),
        (0xbf12, 0x9cfb, 0x2067),
        (0xd5ff, 0x2bde, 0xc5e6),
        (0xd63d, 0xb000, 0x4a3d),
        (0x9f66, 0x83ee, 0x7),
        (0x81bb, 0x8600, 0x0),
        (0x6b00, 0xff, 0x2af9),
        (0x8a9e, 0x7758, 0xc613),
        (0x9480, 0x4a00, 0xa2c0),
        (0xeb00, 0x8cf1, 0x3c53),
    ]
}

/// Pairs of binary16 patterns and their quotient, rounded from the exact one.
fn f16_quotients() -> Vec<(u16, u16, u16)> {
    vec![
        (0x87, 0x3b00, 0x9a),
        (0xc577, 0x2184, 0xdfed),
        (0xf4af, 0x4e05, 0xe239),
        (0x90cb, 0xf5cb, 0x0),
        (0x8880, 0x82ad, 0x42ba),
        (0xd114, 0x20, 0xfc00),
        (0x89ff, 0x3ed, 0xc21c),
        (0x3f1e, 0x97, 0x7c00),
        (0x8052, 0x7b62, 0x8000),
        (0x94a2, 0x2c4c, 0xa450),
        (0x86ec, 0xec80, 0x0),
        (0x7453, 0xe500, 0xcaeb),
        (0x8013, 0xaca0, 0x107),
        (0x331, 0x6b3, 0x379f),
        (0xef34, 0x2820, 0xfc00),
        (0x7a80, 0x8aff, 0xfc00),
        (0x511, 0x14ff, 0x2c0e),
        (0xd2e0, 0x8719, 0x7c00),
        (0x9000, 0xbf7b, 0xc47),
        (0xbdc2, 0x3be1, 0xbdd9),
        (0x7b00, 0x6300, 0x5400),
        (0x8648, 0xd9ce, 0x9),
        (0x50ff, 0xc0a3, 0xcc4f),
        (0xf0ff, 0xc562, 0x676d),
        (0xbee1, 0x805e, 0x7c00),
        (0xf727, 0xe300, 0x5016),
        (0xdfff, 0xfa93, 0x20dd),
        (0xc13d, 0xd2ff, 0x29fd),
        (0x31a9, 0x8876, 0xe513),
        (0x2c11, 0x1fff, 0x4812),
        (0x829d, 0x8056, 0x47c7),
        (0x48ff, 0x5055, 0x349d),
        (0x6afd, 0x3100, 0x7597),
        (0x3980, 0x5fe3, 0x1594),
        (0x4506, 0x72b, 0x799b),
        (0xca1b, 0x16b8, 0xef45),
        (0xdead, 0xdeff, 0x3ba2),
        (0x6506, 0x6ff, 0x7c00),
        (0xbdc9, 0x8612, 0x73a0),
        (0x661e, 0xa503, 0xfc00),
        (0xe480, 0xbf3d, 0x60f9),
        (0x4398, 0x83b7, 0xfc00),
        (0x87f0, 0x9fff, 0x23f1),
        (0x7ac9, 0x5d73, 0x58fb),
        (0x2c7, 0xf619, 0x8000),
        (0x9d80, 0xcd00, 0xc66),
        (0xfba5, 0x2cff, 0xfc00),
        (0x1d80, 0x4252, 0x16f6),
        (0xc14f, 0x86af, 0x765b),
        (0x825a, 0x823a, 0x3c39),
        (0xdd3a, 0xc270, 0x567f),
        (0xa3e5, 0x49cb, 0x9573),
        (0x1f00, 0xf60a, 0x8005),
        (0x865c, 0x9c84, 0x25a2),
        (0xccb, 0xd6bf, 0x802d),
        (0xa580, 0x887f, 0x58e5),
        (0x6800, 0xf834, 0xab9d),
        (0x5942, 0x8437, 0xfc00),
        (0x8350, 0x6d4f, 0x8000),
        (0xe3ff, 0xb396, 0x6c37),
        (0x2200, 0x7bff, 0x3),
        (0xf7, 0x71ff, 0x0),
        (0x8261, 0x3661, 0x85f8),
        (0x87ff, 0x70d, 0xbc89),
        (0xa0ff, 0xc202, 0x1aa7),
        (0x378, 0x826f, 0xbdb4),
        (0x5dff, 0x860f, 0xfc00),
        (0xc15e, 0xc5f5, 0x3735),
        (0x4299, 0x265, 0x7c00),
        (0xd18e, 0x9a80, 0x72d6),
        (0x398f, 0x8137, 0xf893),
        (0xc780, 0x5d80, 0xa574),
        (0x79bb, 0x12ff, 0x7c00),
        (0xf8a7, 0xeeb7, 0x458b),
        (0x8600, 0x1dd4, 0xa41e),
        (0x341f, 0x9000, 0xe01f),
        (0xc1ed, 0x9af9, 0x62cd),
        (0x110, 0x671a, 0x0),
        (0x62e0, 0xe547, 0xb936),
        (0x5b71, 0xa4d8, 0xf225),
        (0xcb6e, 0x1180, 0xf567),
        (0x2b98, 0x9b0b, 0xcc50),
        (0x87a8, 0x7b8c, 0x8000),
        (0x8009, 0x7aff, 0x8000),
        (0x35b, 0x92c6, 0xabed),
        (0xd5, 0x33e1, 0x361),
        (0x2e80, 0xf88a, 0x802e),
        (0xf0ff, 0x8bf3, 0x7c00),
        (0x832a, 0x81a4, 0x3fb7),
        (0x83d7, 0x803c, 0x4c19),
        (0x2c9b, 0xb01b, 0xb87d),
        (0x671, 0xfbb8, 0x8000),
        (0xc2fe, 0x99aa, 0x64f0),
        (0xba00, 0x35b3, 0xc036),
        (0xb676, 0xeb00, 0x762),
        (0xdd2, 0xd480, 0x8053),
        (0x806a, 0x2e5f, 0x8429),
        (0xad2b, 0x3e21, 0xaabf),
        (0xf721, 0xa729, 0x7c00),
        (0x7323, 0x8382, 0xfc00),
        (0xa7ff, 0x93, 0xeaf6),
        (0xb59, 0xfbf1, 0x8000),
        (0x66ff, 0x3a3, 0x7c00),
        (0x5f2c, 0x4980, 0x5137),
        (0xcaa, 0x1b7b, 0x2cfd),
        (0x429f, 0xe9d4, 0x948b),
        (0x33ff, 0xcf55, 0xa05d),
        (0xb361, 0xb321, 0x3c24),
        (0xb9dd, 0x4180, 0xb444),
        (0xbdb6, 0x58ff, 0xa093),
        (0xf437, 0xd2, 0xfc00),
        (0xa6ff, 0x795a, 0x800a),
        (0xa6ff, 0x3c51, 0xa67c),
        (0x20d, 0x7b38, 0x0),
        (0xbe1b, 0x7900, 0x8271),
        (0xac80, 0x3d5b, 0xaab9),
        (0x329, 0x6ae1, 0x0),
        (0x8094, 0x418b, 0x8035),
        (0x6e80, 0xbb9, 0x7c00),
        (0x78d4, 0x72cb, 0x41b0),
        (0x818f, 0x3dc7, 0x8114),
        (0x5dff, 0xe000, 0xb9ff),
        (0x4a, 0x727a, 0x0),
        (0x8155, 0x77b5, 0x8000),
        (0x51, 0x90ff, 0xa00e),
        (0x8732, 0x7bc1, 0x8000),
        (0xfb81, 0x4717, 0xf03c),
        (0xdbff, 0xf080, 0x271c),
        (0x238f, 0x9fff, 0xbf90),
        (0x3e8b, 0xef8b, 0x8af0),
        (0x3080, 0xc2cf, 0xa94a),
        (0xc00, 0x15ff, 0x3156),
        (0x64fb, 0xc3a3, 0xdd38),
        (0x2256, 0x652e, 0x9d),
        (0x8861, 0x35d, 0xc135),
        (0xdfff, 0x96f4, 0x7c00),
        (0xbeff, 0x5375, 0xa781),
        (0xb7ff, 0x21f6, 0xd15e),
        (0x4582, 0x8953, 0xf823),
        (0x999d, 0x1af, 0xd6ab),
        (0xb36a, 0x8304, 0x6ceb),
        (0x93a4, 0x2a4c, 0xa4db),
        (0xb02a, 0xe140, 0xa58),
        (0x5b89, 0xb680, 0xe0a3),
        (0x280, 0xf589, 0x8000),
        (0x5251, 0xac80, 0xe19d),
        (0x1a8, 0x445, 0x3635),
        (0xc0, 0x2f80, 0x666),
        (0xf76b, 0x794f, 0xb997),
        (0xabc5, 0xe635, 0x281),
        (0x62d7, 0xe4, 0x7c00),
        (0x7952, 0x8c80, 0xfc00),
        (0x566f, 0x8347, 0xfc00),
        (0xe180, 0x6634, 0xb718),
        (0x3ff, 0xd000, 0x8020),
        (0x8c00, 0xc4f9, 0x338),
        (0x73c7, 0x1d06, 0x7c00),
        (0xe180, 0x76e3, 0xa664),
        (0x3500, 0x3992, 0x372e),
        (0x754a, 0x13, 0x7c00),
        (0x82f4, 0x83f0, 0x3a00),
        (0x9281, 0xf00, 0xbf6f),
        (0x88ea, 0xa100, 0x23dd),
        (0x9544, 0x5db9, 0x803b),
        (0xd95a, 0x1239, 0xfc00),
        (0xc55, 0x3c7, 0x4496),
        (0x2883, 0xb798, 0xacc1),
        (0x2cc, 0xd800, 0x8006),
        (0x9100, 0x2100, 0xac00),
        (0x785d, 0x7954, 0x3a8d),
        (0x1580, 0x8abd, 0xc688),
        (0x82ff, 0x10cc, 0xacff),
        (0xd2b8, 0xba, 0xfc00),
        (0xe3ee, 0x4d80, 0xd1c4),
        (0x227, 0xe77a, 0x8000),
        (0xb80, 0x758e, 0x0),
        (0x1c36, 0xf969, 0x8002),
        (0xc880, 0xbeff, 0x4525),
        (0x315e, 0xe11c, 0x8c34),
        (0x80b4, 0xbe80, 0x6f),
        (0x83, 0xddfe, 0x8000),
        (0x3cf7, 0xf73f, 0x82be),
        (0x2f8, 0x8fff, 0xadf1),
        (0x83ff, 0x85e5, 0x396c),
        (0x82dc, 0x3dec, 0x81ee),
        (0x83c0, 0xb7ff, 0x781),
        (0x7748, 0x1065, 0x7c00),
        (0x7c, 0xad41, 0x85e6),
        (0x72ff, 0x3fd0, 0x6f2a),
        (0xaa7e, 0xedff, 0x8b),
        (0x5de, 0x4855, 0xad),
        (0x3eb7, 0x9fff, 0xdab8),
        (0x8a00, 0x8024, 0x5555),
        (0x1062, 0x11b9, 0x3a21),
        (0xe012, 0x174d, 0xfc00),
        (0x3c80, 0x85cd, 0xf235),
        (0xb6d3, 0xef4a, 0x3bf),
        (0x69ff, 0x1da5, 0x7c00),
        (0x8381, 0xbfd7, 0x1ca),
        (0x71d7, 0xe3ff, 0xc9d8),
        (0xbf1, 0xc139, 0x8615),
        (0xb100, 0xc100, 0x2c00),
        (0xe03b, 0xa0e7, 0x7ae7),
        (0x5f00, 0x8acc, 0xfc00),
        (0x3ee6, 0x266, 0x79c1),
        (0x913c, 0xb386, 0x1991),
        (0x156, 0xaa80, 0x8e94),
        (0xbf5c, 0x2d3, 0xf936),
        (0xc137, 0xb041, 0x4ce7),
        (0x5075, 0xfb00, 0x9118),
        (0x813e, 0xf2ad, 0x0),
        (0x48ff, 0x4c97, 0x385b),
        (0x1a80, 0xf4b5, 0x8003),
        (0xcaef, 0x4f66, 0xb77f),
        (0xf535, 0x4397, 0xed7d),
        (0x8007, 0x68, 0xac4f),
        (0x77b9, 0xa980, 0xfc00),
        (0x8953, 0x8cff, 0x3843),
        (0x81b8, 0x8a12, 0x3088),
        (0x4291, 0xaf80, 0xcf01),
        (0x65f, 0xd07a, 0x802e),
        (0xf827, 0xbfbd, 0x744b),
        (0x54d8, 0x1400, 0x7c00),
        (0xc4ff, 0x34c, 0xfc00),
        (0x3e47, 0x174, 0x7c00),
        (0xc256, 0xb05a, 0x4dd3),
        (0x550c, 0xbbff, 0xd50d),
        (0x9393, 0x99fc, 0x3510),
        (0x67cc, 0x7b82, 0x2827),
        (0x841f, 0xb73a, 0x890),
        (0x3700, 0x976, 0x6921),
        (0x9b6f, 0x2c81, 0xaa9a),
        (0x3c04, 0x59cb, 0x1d8c),
        (0xeeb9, 0xc1df, 0x6895),
        (0x23b2, 0x3cc0, 0x227b),
        (0xeba7, 0x2d61, 0xf9b1),
        (0xd480, 0x80ed, 0x7c00),
        (0x734, 0x6d, 0x4c3b),
        (0x6379, 0xff, 0x7c00),
        (0x7a97, 0x6100, 0x5546),
        (0x3c43, 0xd2ff, 0xa4e0),
        (0x22b3, 0xa1ca, 0xbca1),
        (0xbc80, 0x1215, 0xe5eb),
        (0x6929, 0x4cd, 0x7c00),
        (0x8480, 0xc86f, 0x82),
        (0x1260, 0x8387, 0xcb3b),
        (0xf84c, 0xf96d, 0x3a56),
        (0x82cd, 0x3dff, 0x81de),
        (0x3ba, 0x6055, 0x2),
        (0xc80, 0xf472, 0x8000),
        (0x41d4, 0x9c1, 0x740d),
        (0xa71f, 0x5180, 0x912e),
        (0x8c80, 0x8018, 0x5a00),
        (0x4e1e, 0x30ff, 0x58e6),
        (0x8c3, 0x32f, 0x41fc),
        (0x9f25, 0x27a7, 0xb378),
        (0x9299, 0xdfff, 0x1a),
        (0x1a87, 0x948d, 0xc1bd),
        (0xf853, 0xc24a, 0x7180),
        (0x82ff, 0x42b6, 0x80e5),
        (0xce, 0x910a, 0xa51c),
        (0x7a80, 0xef48, 0xc724),
        (0x40ec, 0x79cd, 0x365),
        (0x749f, 0x9316, 0xfc00),
        (0xc5f, 0x5d09, 0xe),
        (0x9dff, 0xb979, 0x2062),
        (0x7800, 0x5da3, 0x55ad),
        (0x5100, 0x48ab, 0x4449),
        (0x8e9e, 0x8018, 0x5c69),
        (0x81b4, 0x479d, 0x8039),
        (0xbb80, 0x4327, 0xb432),
        (0xf8cd, 0x75d, 0xfc00),
        (0x2bb, 0x54d0, 0x9),
        (0xbcc2, 0x77df, 0x826b),
        (0xe580, 0xaf00, 0x7249),
        (0x4300, 0xcb03, 0xb3fd),
        (0x502f, 0xd100, 0xbab2),
        (0xc548, 0x58e9, 0xa84d),
        (0xdff1, 0x2cf1, 0xee6e),
        (0x2e7e, 0xbcff, 0xad33),
        (0x1cff, 0x55ff, 0x355),
        (0x9766, 0xc3e6, 0xf7e),
        (0x10ff, 0xc7f8, 0x8504),
        (0x3db, 0xa88f, 0x96c4),
        (0x4e00, 0xd4e2, 0xb4ea),
        (0x45d1, 0x28ff, 0x58a8),
        (0x2529, 0xc25e, 0x9e7c),
        (0x182, 0x7b00, 0x0),
        (0xf216, 0xc06a, 0x6d84),
        (0xa29e, 0xf6a9, 0x8),
        (0x113c, 0x1b9, 0x4e14),
        (0xe9ff, 0x6b80, 0xba65),
        (0x149, 0x2b00, 0xde0),
        (0x852, 0x7528, 0x0),
        (0x94ad, 0x7a00, 0x8000),
        (0x7a80, 0xd0ff, 0xe534),
        (0x3691, 0xd454, 0x9e12),
        (0xe6ca, 0x6988, 0xb8e9),
        (0x383, 0xf908, 0x8000),
        (0x99ff, 0xbaff, 0x1adb),
        (0x70fc, 0x3275, 0x7a2d),
        (0x844b, 0x4bff, 0x8045),
        (0xe365, 0x39ff, 0xe4ef),
        (0x86ff, 0xa7, 0xc95d),
        (0xc5eb, 0x60db, 0xa0e0),
        (0x9553, 0x97d1, 0x3973),
        (0xbcbe, 0x9a2d, 0x5e25),
        (0xdb67, 0x5880, 0xbe94),
        (0xc751, 0xf7ed, 0xb63),
        (0xe00, 0x835c, 0xc725),
        (0x228, 0xef52, 0x8000),
        (0x7544, 0x9980, 0xfc00),
        (0x41f8, 0x194d, 0x6481),
        (0x702a, 0x6947, 0x4250),
        (0x82a0, 0x174, 0xbf3a),
        (0xbf07, 0x6ec3, 0x8c28),
        (0x7100, 0x6a51, 0x4255),
        (0x7a1b, 0x6a8, 0x7c00),
        (0x81d7, 0xcd, 0xc098),
        (0x4b00, 0x6caf, 0x19fa),
        (0x11f, 0x896, 0x2fd3),
        (0xa14, 0x527, 0x40b8),
        (0xdf5e, 0x2865, 0xf2b5),
        (0x1f78, 0xd080, 0x8aa4),
        (0x82d9, 0xfa37, 0x0),
        (0xeaff, 0x7be9, 0xab13),
        (0xb28e, 0x8287, 0x6d30),
        (0xac00, 0x9a00, 0x4d55),
        (0xe8ff, 0xc19f, 0x631c),
        (0xbe80, 0xf4ae, 0x58e),
        (0xf2cc, 0xa167, 0x7c00),
        (0x86b4, 0xfbc6, 0x0),
        (0x5d7, 0x2d27, 0x1489),
        (0xbf10, 0x3d9, 0xf758),
        (0x2d0f, 0x8c95, 0xdc6b),
        (0xa780, 0x4d51, 0x95a5),
        (0x8190, 0x3cb5, 0x8154),
        (0x556, 0x20d, 0x4134),
        (0x84f9, 0xb66b, 0xa33),
        (0x2f36, 0xdaff, 0x901f),
        (0xd9ff, 0xb880, 0x5d54),
        (0x2cba, 0x760a, 0x32),
        (0x5429, 0x8273, 0xfc00),
        (0x782c, 0xccca, 0xe6f8),
        (0xdc80, 0xf400, 0x2480),
        (0xb4, 0x8b72, 0xaa0b),
        (0xc9ff, 0x2bc, 0xfc00),
        (0xc6ff, 0xe0ff, 0x219a),
        (0x1ac5, 0x288, 0x5559),
        (0x4f80, 0xbe20, 0xcce6),
        (0xafff, 0xf4b4, 0x6d),
        (0x5ff, 0x7bff, 0x0),
        (0x3a20, 0x1f0a, 0x56f6),
        (0xf836, 0x3a80, 0xf92f),
        (0x80cf, 0xf88e, 0x0),
        (0xd555, 0x6fff, 0xa156),
        (0x19ff, 0x19b3, 0x3c35),
        (0xa93, 0x39eb, 0xc72),
        (0x4f80, 0x7982, 0x1172),
        (0xd566, 0xf80, 0xfc00),
        (0x71b3, 0xb600, 0xf799),
        (0x6b00, 0xeb81, 0xbb76),
        (0x98f2, 0x769d, 0x8001),
        (0x207, 0xa7a1, 0x9440),
        (0xa7d9, 0x93, 0xead5),
        (0x8632, 0x2b4d, 0x96ca),
        (0xaff, 0x83a3, 0xc3b2),
        (0xcf3b, 0x21ff, 0xe8d3),
        (0x85a3, 0x3dc9, 0x83e6),
        (0x86d0, 0x5e00, 0x8005),
        (0x15e, 0x36f9, 0x323),
        (0x4544, 0x6320, 0x1dea),
        (0x2f1e, 0x28cc, 0x41ef),
        (0xb9a6, 0x268, 0xf4b2),
        (0x8e80, 0x88ff, 0x4134),
        (0x637b, 0xd328, 0xcc2e),
        (0xdb82, 0x64ff, 0xb203),
        (0x594e, 0x795c, 0x1beb),
        (0x402, 0x83dd, 0xbc26),
        (0xd5ff, 0x661b, 0xabdb),
        (0xf921, 0x5945, 0xdbc9),
        (0x6eff, 0xf8e0, 0xb1be),
        (0x79d1, 0x62a, 0x7c00),
        (0xf1d6, 0xabc, 0xfc00),
        (0xdf36, 0xd4, 0xfc00),
        (0x3d96, 0xb330, 0xc638),
        (0x261e, 0x423b, 0x1fdb),
        (0xe792, 0xf6ff, 0x2c54),
        (0xbc85, 0x37f, 0xf52c),
        (0xc52a, 0x3e6d, 0xc26e),
        (0x4373, 0x80a4, 0xfc00),
        (0xbb, 0x194, 0x3768),
        (0xc3eb, 0x5300, 0xac86),
        (0x795e, 0xbaff, 0xfa23),
        (0x9900, 0x3f1d, 0x95a0),
        (0x9720, 0xe2dc, 0x21),
        (0xc2e7, 0xf740, 0x79e),
        (0x9d59, 0x8381, 0x561b),
        (0x6601, 0x1e2, 0x7c00),
        (0xfa09, 0x76b9, 0xbf2f),
    ]
}

/// Pairs of binary128 patterns and their product, rounded from the exact one.
fn f128_products() -> Vec<(u128, u128, u128)> {
    vec![
        (0xa050ec000d888cde7dbb89874e3d855c, 0x10a80c7563fbb1b85e7ba1aab4a87, 0x80000000000000000000000000000000),
        (0xf379027d177d93ee5c752d59ce0b, 0x75858000000000000000000000000000, 0x35876d3583bba33c5de58aafc406b510),
        (0xd9ed92b48588c7c762aa50f0383d5c04, 0x55ab0250855b28498610c1332f19286, 0x9f4953e57145486a064d84cd22ad82f6),
        (0x482bddc06cfde51597560ecff1c7fc33, 0x19a45b36610c2606a2cbbe4c69ddb6d5, 0x21d143fca7b7dc2d6c71dd9e638bd7f6),
        (0x6fe8a361cc4e955a0a19b07e7019251e, 0xc37f993a8755dadb6fac93206c35536e, 0xf3694f3390a38794dd7d1bdf792b03f8),
        (0x182b7fffffffffffffffffffffffffff, 0x96c17fffffffffffffffffffffffffff, 0x80000000000000000000000000000000),
        (0x999144d2f744981959663c9e14fa789f, 0x325ef0362df543865be0599fa1bd1067, 0x8bf13acebef2ac1a4bd47ff43dba9434),
        (0x981a3548c333c4ff9c670f3b040e1d75, 0x8a0fe000000000000000000000000000, 0x0),
        (0x6eec43ddaf976828d1e55d5d0ec61301, 0x8002c1035850c9ad18e73716f257d480, 0xaef01c060626029e63759451bd746417),
        (0x5e354739933987d992064e483205781, 0xb74524b0f563f357c2d7f5c1815df6ab, 0x80000000000000000000000000000000),
        (0x1d8f7d1000a10b6fb37b161247af49f1, 0xc8184ccc4d8000165acc20e9602400b6, 0xa5a8ef60dcedb37c01447f588b6b1684),
        (0x895c7376bc445c91cb197614b7a637a4, 0xe739c000000000000000000000000000, 0x30974507e4bbd0ff91b6475220b170b0),
        (0xe62e6000000000000000000000000000, 0x73c7e000000000000000000000000000, 0xffff0000000000000000000000000000),
        (0xfffde1d6c5a82125ad150855f7f4424b, 0xb8da819e8f8927c7feebdaf8026acd9a, 0x78d96ae737fc7b6b7af54241a1d6e2ba),
        (0xafeaf256ef19cf96bfa01dfde8a8, 0xc0005ca9396d035658cf4986b5c90a88, 0x8001df2f55fcc3691e8e4e1049d5a12e),
        (0xd5d3bfffffffffffffffffffffffffff, 0x16569759be702575e84fe2c35b9d526c, 0xac2b646e86a220c72b45e66af029a81e),
        (0x80005af59f93a62affcabb5eb5b5b49a, 0x4a31f5973cb9bfb93d20f3fa00b7cb13, 0x8a326470db814a9e53c302c502eb99de),
        (0x40001db276ca9065795bc2be2f7cfefd, 0xba8dbfffffffffffffffffffffffffff, 0xba8ef3f84fe27cb1946094ccd31abe3a),
        (0x4000ad62346080064069c25f4cbdbe9f, 0x1ada7e75931c20efe1256df972d54, 0x36853986f8cad48578a5ab33841d6),
        (0xb89ba2ceea42679b4a353218d77d8c14, 0x798871d247e80454c3c8584bec4d, 0x80000000000000000000000000000000),
        (0xf6249e1a03d3bfa2d21c82be02ca7974, 0xc1523fffffffffffffffffffffffffff, 0x777802d0426457c5c351d1b6c1be8be8),
        (0x2f800585b0442070a91dc88764a7a3c5, 0x26d24000000000000000000000000000, 0x165346e71c55288cd3653aa93dd18cb6),
        (0x68e90af06bde87049debf84e3290bf22, 0x1c56544ce0a21357f4e24fcd60eb, 0x28e7d8c5077a08645e2fda31159803b0),
        (0xe3d3fb01b582ec2acf32633e5f62, 0x573fffffffffffffffffffffffffffff, 0x1741c7a7f6036b05d8559e64c67cbec3),
        (0x7ffd4f9bb964a1e9afd17c2555a68ccb, 0x2040a74e56310f66fb450df79a0bffa7, 0x603f157880e332bcf1579731f1cd0a8d),
        (0xe466945ee9dcfd433882bfe6ab391ea1, 0x6cfb83c8da2969cfbcbbe47842c9, 0xa467584aa7c4b5e368f710df1e5298a6),
        (0xe19d3fffffffffffffffffffffffffff, 0x33554b710244015ad4e500849f6ef4b7, 0xd4f39e4d42d501b18a1e40a5c74ab1e3),
        (0x86138000000000000000000000000000, 0xa89a5f31c083e5a60f21646b6eae296c, 0x0),
        (0x8000ac470dba9b91c08da81265489c2a, 0x59c7ef4847f0d52a73632676bbcaf622, 0x99c94d4e07f17629e4227d7406c52880),
        (0xd4b2adafc7c9c6f815c3e848547edfb0, 0x506ebfffffffffffffffffffffffffff, 0xe52277f9ced08e19130b6b3f49ef03b9),
        (0x7b4f0000000000000000000000000000, 0xa12d3858a9e57d273409b74661be77f7, 0xdc7d3858a9e57d273409b74661be77f7),
        (0x4301ffffffffffffffffffffffffffff, 0xfffdb8a9267c19089dd24131f74fbce7, 0xffff0000000000000000000000000000),
        (0xc000cc6b57a650b5691b9397d85dcdb1, 0x8001da6d219be85af98245fbc0cc0ed3, 0x3aaa183384037d4efa752fa4cb298),
        (0x80001a2119a92884fa777a3932175741, 0x1384c000000000000000000000000000, 0x80000000000000000000000000000000),
        (0x66298000000000000000000000000000, 0x39a5bfffffffffffffffffffffffffff, 0x5fd04fffffffffffffffffffffffffff),
        (0x4724ffe7111084ea3bc7df18456992c7, 0xc0005f2e4cac33ea489d9a43f4c9f206, 0xc7265f1d329dd3aa75b652bd82e6d054),
        (0xab2ad3bc9b98cfb9c4658d351fe0a135, 0x9577a000000000000000000000000000, 0xa37c093e6c28c6ef9282bb29e682fb),
        (0x97437fffffffffffffffffffffffffff, 0x9c53ffffffffffffffffffffffffffff, 0x0),
        (0x697a6000000000000000000000000000, 0x40009a470b0ef03061169f1fa983e8ca, 0x697c1a10d79a452142bf8d65c48ab00b),
        (0xbd186911ed19030519be5375c0c94c28, 0xfd8ea000000000000000000000000000, 0x7aa8255e90a4527424eaa3cfaca38de0),
        (0x6be0bfffffffffffffffffffffffffff, 0x7bbe1ea30d494532a392194cb070389e, 0x7fff0000000000000000000000000000),
        (0xa881c000000000000000000000000000, 0xa3e97fbcc2a948c7dbe02010cc90, 0x80000000000000000000000000000000),
        (0x77937fffffffffffffffffffffffffff, 0x3c6813b75687988fb71062f0927f3ebc, 0x73fc9d9301cb64d792989468dbbede19),
        (0xa757b2230fedebbe23cc58b641a3e57b, 0x3735e7895264ab4ba0178512591e51e9, 0x9e8e9d64c9e58a89fc5aa36714eca469),
        (0xec0dad9565f589cc6d2627dab43e3ef0, 0xd7978000000000000000000000000000, 0x7fff0000000000000000000000000000),
        (0x2dad4494468183cdb5f68204e800a02f, 0xe48279aca0e4e6241e9fa9a44c965e71, 0xd230ded93b72fe093fee521b3ab307ca),
        (0x2c8547b45f1227916c10353685202, 0xabc4d35dcb35c3a526342be9473e54cd, 0x80000000000000000000000000000000),
        (0x49d88a059f54d281fb2eca042aad69cb, 0x80009c2eaab26206b4f7fa8b6979f2f9, 0x89d9e0c681a938393db454af60fa71dc),
        (0xf169c3f1bf79ef7673b9e79fba4886c3, 0x77d1b4d28edcea5a94bf9b88e51cfd70, 0xffff0000000000000000000000000000),
        (0x16848000000000000000000000000000, 0x70be8000000000000000000000000000, 0x47442000000000000000000000000000),
        (0x8b1e2000000000000000000000000000, 0x3aca9e77edc5408637d775d084658f4, 0x80000000000000000000000000000000),
        (0xc000a8c401a00471c1e2555485fd4ebb, 0x1cc365caf92205b943992db1894956f, 0x81ce017b91dc66bc8ee3bce2a6a66ec6),
        (0x304ac000000000000000000000000000, 0xf63efff30f44918f758a431a1ff45d87, 0xe68abff4ad5bff5d86d8fab6dbf5d1d6),
        (0xe84a1e644d74b4fa4c344231da1d, 0xbfffbd935bcf0138c2c316cc750ccfd3, 0x8001944e8cb1fc145e4c5a4f5bc5352d),
        (0x73ce5b4fe4c7debb890a33e63d3174e2, 0x51e7fffffffffffffffffffffffffff, 0x38ee047beb95e70ca6c7a6ecade517a9),
        (0xe1469c53f6429c24efd46e73b2fa1c06, 0x5830137e9be37b9e28a7ab89b5ac4599, 0xf977bbba1df1fe2d4e093ad6fd5d967b),
        (0x5f6ed4d4c150539f0b7d562e8bc26d65, 0xead8e000000000000000000000000000, 0xffff0000000000000000000000000000),
        (0x9e747fffffffffffffffffffffffffff, 0x22814d490c7f81dce5418e5051d7c, 0x80000000000000000000000000000000),
        (0xfffe72d1bd599405eb34f9b4fbb1b399, 0xc5baddd07fe422fba76e3888e5d6, 0xc0001e6a1466961eca467f0955c56691),
        (0x276aab7a8506bbc47d22afabb6a11b7e, 0xf3273b7959784e3534c08929e4ad2658, 0xda93076531ff52bfb2a2115bb7effca8),
        (0x80007e71b8958a3dfa9ee3338252940c, 0x6031075bebb356c3894b156707538c9d, 0xa032042876f26dfbded3509e6f225536),
        (0x3855a000000000000000000000000000, 0x8000f895606e28554a0dd0aab98ee338, 0x80000000000000000000000000000000),
        (0x4f3f2bb1138fb37c2f4bd3dd6a955b7d, 0x1a25a4629247a989080a805b17fb, 0xf3de9c0d05418ffb7b7f9f8e2d5a7b4),
        (0x11aa0cc5aff6ca55e23b77fcf6a23717, 0x312894e1b858de7412f5327820a11eb6, 0x2d3a914f4fc833288d80b97d30a249a),
        (0xaeb09cbe8d39c47a2eeaa1abd9ae866d, 0xfffda2c8062e71f87a881a3ef0efdb0e, 0x6eaf5198d0b7009f3ac4be703efe9496),
        (0x7ffe622d9f90170351ad7821f06a422f, 0xfffdbde2b0c0ee318a4f26e2b5d1b33e, 0xffff0000000000000000000000000000),
        (0x803ce000000000000000000000000000, 0x70cabfffffffffffffffffffffffffff, 0xb108a3ffffffffffffffffffffffffff),
        (0x800085d5d705e0f3abce23f6fce2eb2f, 0x8001c82d7726dec140b3d94673b3846b, 0x0),
        (0xaaf87c8c79bbb6fc67b6704e758c6d04, 0x800212f2c08a6e38e51654c1c5177cba, 0x0),
        (0xcf663fffffffffffffffffffffffffff, 0xc93a9896406cba6815fd2cd002779a49, 0x58a1febbd087e9021b7c7804031580da),
        (0x669a2455e88c0599efda0e772d608d56, 0x8002865d3b6c0ee8eea9d70b4abd8947, 0xa69dbdc55755fd439dcb63267d5c1b45),
        (0x65dc3fffffffffffffffffffffffffff, 0x2dd033ef91fd46e0c607656f83cb0f37, 0x53ad80eb767c9898f7893ecb64bdd304),
        (0x10230000000000000000000000000000, 0x1707450fbb911f9e5c1afa6a76b409c4, 0x0),
        (0x80012486995360f0aef10134dd646fe6, 0xf879cc1849b933f7e1b19f09e166, 0x80000000000000000000000000000000),
        (0x8000c7e34946b8311a8963d6309a09ed, 0x800093ccbcd4b400f4de8bcf2c691cb8, 0x0),
        (0x102c7d3d63c1f6b6cef9b44a73bce702, 0x43228bb92fb9bbe124464507935d397d, 0x135026a8c0ae1ea817e32d062b4651a1),
        (0x3a38b22e452d3244ac3a4187d0d37996, 0x644d0eb078443c7f4b759c9e6657, 0x0),
        (0xf58107cbfa64d06e46258c8ec3b6a3b8, 0x800066557349e86c45b38f5281d47760, 0x3581a5cd4d2c62ad06f4ea9a03ed2a3f),
        (0x62d72000000000000000000000000000, 0xfae6e000000000000000000000000000, 0xffff0000000000000000000000000000),
        (0x66fd67347121e605611e3ac86159ec3c, 0xeb311b00e5a828440e695779b1cb818c, 0xffff0000000000000000000000000000),
        (0x7ffdd5d7a201c93319d5c8f31acb9eac, 0x44dc4adf426b0c11c0fac45605b3d594, 0x7fff0000000000000000000000000000),
        (0x80006a29a09d2b6b06eaa2979a9f0b66, 0x56602000000000000000000000000000, 0x9660ddbb52c343619f1fdbaa37cbb34b),
        (0x218e000000000000000000000000000, 0x7c44a35b91a0e91933f98b1a0dfe333b, 0x3e5e8925d886da87a0b9f2686d1e5007),
        (0xc0202000000000000000000000000000, 0xf8cda000000000000000000000000000, 0x78eed400000000000000000000000000),
        (0x7ffd8f587087bef760a7429d73c9705d, 0x7f8d4000000000000000000000000000, 0x7fff0000000000000000000000000000),
        (0x2a2f2e118f0ba83571edb36e20f1, 0xf1cbfffffffffffffffffffffffffff, 0x0),
        (0x7ffe3258a2d2fd83d35309694258d3be, 0x173e0000000000000000000000000000, 0x573d3258a2d2fd83d35309694258d3be),
        (0x80005bda816ea48641b569f989031dea, 0xd501a000000000000000000000000000, 0x15022a8624a796b4558d986afd4a2138),
        (0x7f5b54abe7c2c4c8ca7907e228078fad, 0x6dda420015536a033b353c953e01dedf, 0x7fff0000000000000000000000000000),
        (0x80006d6114e3a84c70e2eb5d86f9ce66, 0x79b58000000000000000000000000000, 0xb9b648233eaaf8e552a8c21894ed6b32),
        (0x480264e802e97ec99d3a5ce5a70c4b43, 0xd9419ff6e101ec57733856eb65d788f9, 0xe14521f626aef4efda91341088e5ab52),
        (0x80001a071e19bce8ab44d69b02977ab5, 0x5d479197f69e4c00fbf6df8ecd1bc730, 0x9d4646a4cb6009133bddf0d998278efe),
        (0xd4e698eba0715cbe4326308eacbf2981, 0xded4b3cc81a385200de7a2aab7984740, 0x73bc5c0f863c34b98cd31f6ff3796b1c),
        (0x2adda000000000000000000000000000, 0x800242cfe8fe9f34345f93c8bd21f0bf, 0x80000000000000000000000000000000),
        (0xd638d008a2366dfdebcc62633459, 0x80017e84f5dd53e8adbc26db4b1764e5, 0x80000000000000000000000000000000),
        (0x18ddddb263c860acd7e08aa6d712c, 0x8032e7989edce55ea7f4d3c2a8b8, 0x0),
        (0xffcb2000000000000000000000000000, 0x1d204512009a73cc7c5dd1f51688a, 0xbfce06226da2056e12305f4c619dcace),
        (0xf62c62763516d5295c1788c8c541f2fb, 0x2c83259da4e401c752cb801835a6f, 0xb6303bd4230833cf1e661a7158406ade),
        (0x5d94a31e20e75e9f9369220896393c68, 0xca8aeaf9807149677bc6f7bf105eea18, 0xe82091e812c8b28ad8fa4d2a9e7f185f),
        (0x49614bc507d7d3230ff963022dcddb48, 0xc4fa3f2b1de9963551ae526ac7ed430e, 0xce5c9da265a24c3b4a63ec9781f3a0ec),
        (0x2712a000000000000000000000000000, 0xfffe3993e7937ecf41ef48200ab5c019, 0xe711fd90584fae10cb24d53411675829),
        (0x7c0e72754e1ae6a60ba7099d93e51fe8, 0xfffe366ee8e8c6577f78d4a73ac8bca8, 0xffff0000000000000000000000000000),
        (0x19b5412e7e0ea169920c8561ac31d56c, 0x6b7bbfffffffffffffffffffffffffff, 0x45321908ae4ccd3c5fcaf4b576ab9abe),
        (0x8000f3818ddb44b6be51181b42d90d67, 0x1ff08000000000000000000000000000, 0x80000000000000000000000000000000),
        (0x2c2743f2a74fb83f5e568f404477c935, 0xfffeda0453da532b309b6b535e177edf, 0xec272bea61d81541ede6272f2552b703),
        (0x8e89ce781d4a36d67cff59b3d11d6685, 0xc34801122a7707c99f46faec2523b712, 0x11d2d06766904cfa7de8ac51bf981c74),
        (0xad807c29f63ca9396b4890e672aa, 0x8cd74196331737eb0597547fe616f838, 0x80000000000000000000000000000000),
        (0x8ba87fffffffffffffffffffffffffff, 0x80009f3e267b2cc3a0f8c23cb94ca889, 0x0),
        (0xfffdaed13402fa7cb0c8e4c48ca44a61, 0x11da000000000000000000000000000, 0xc11c5e09fa426b854fa339dfb2457c6f),
        (0x36aa8a95531b13c9b3a8e57a3d5ceec8, 0x23db4600264e2ce97f2e0a940c4ee, 0x0),
        (0xeeb90131b1d77b7cf214358ee83fc39c, 0xe9b18b270d0b18fdf671f5a08d98ce01, 0x7fff0000000000000000000000000000),
        (0x369774407fe69d3b9c08ea982e731b89, 0x1aff68030fba37a156b61d302fc831fe, 0x119805bf93be2e07c902c8448e9657e4),
        (0x71e5ffffffffffffffffffffffffffff, 0x871662a63ec8f0a16d54a1eda5011b4c, 0xb8fd62a63ec8f0a16d54a1eda5011b4b),
        (0x81f49d23744cfe5b4e9e7e3b346b4f5d, 0xe9c8fcff1824c2a6ce10a6fe2369, 0x80000000000000000000000000000000),
        (0x80005987ed2dc93c20737e14afac9388, 0xfc2683d15c2a16ded61352ed7a6f306e, 0x3c270f436780d6405433698a5bc9318c),
        (0x80002bac2635ffa69fd5f2c0e4f2ae85, 0xc0009de6865a1abbc6e9f8f6738d2bad, 0x8d381a75da116ddaa06afdd802df),
        (0xc29dddfccddb3b75f124fbf9c659121f, 0xd7615d087ee53909afcc8a4064948fbc, 0x5a0045d8c0bc5cef88e2fb8f08bbbb4a),
        (0x695d2ab65752dfc8a6d45f8a0b925855, 0xd3eaee55500af590f496db70f7b1dfb1, 0xfd492067b43957a63a20f3e0ed9913c8),
        (0x56f98ea529783599143834fd4725ba2a, 0xdf564f48054006b117c8ff415287ca75, 0xf651050d23f272bbdfe879b6c99d1001),
        (0x3bcfc6608775bc6778d55b3ee43868b1, 0x93b4a000000000000000000000000000, 0x8f85712e6e0fa914122d5a23196dd510),
        (0x8000edddb8df55802c30767fc93a41ea, 0x21ff0000000000000000000000000000, 0x80000000000000000000000000000000),
        (0x29ccc000000000000000000000000000, 0x8000fcada7c72ff72f247af8649fc254, 0x80000000000000000000000000000000),
        (0x644454b9382db8eedfe315a5dd07ded5, 0x55da192359c343a13a776cb7c9a20d7d, 0x7a1f762e5b7525df3c88fe478e3ce412),
        (0x2a4d477cddafef9514e132be3da7033, 0x4da6c73b40b7f107e00775d876683655, 0x104ca086ae759d69fe252fd86efe7dc4),
        (0x9c76677920173a820286ecde176219c6, 0x6ae33fffffffffffffffffffffffffff, 0xc75ac157681d09228328a8159d3aa036),
        (0xc38ced6e88f6c9dd024c30d16658bf96, 0xa9dd32397ffffccf37d8728f981a7e1c, 0x2d6b271e7a055d4918e1f62ecec6120f),
        (0x542b155982c82afd58508bd6b52d8e36, 0x937896561cb0a0263d7f1aaff2fa6a67, 0xa7a4b839409088c5692339bb073286df),
        (0xfffea47d563b0a4c09e749c02c247acd, 0x7132802bad8cdad85a59982c17411b9f, 0xffff0000000000000000000000000000),
        (0x1bd4a000000000000000000000000000, 0x71e8972859240559213a91ddeacf048d, 0x4dbe4ad0c86d44586aff96844ec833b3),
        (0xf392bb61aeea07ea9c7550a4672338c9, 0x4594c925bf6e0b3a6236e1b8fbe66ffb, 0xf9288be160f5447085b6cea9bf79aded),
        (0xfffe4020f96fcce70315b58ad294b2b0, 0x2331aa350823a9ddb90051e9fe3a5dae, 0xe3310a7c980aa7eb3c102edf76181e9a),
        (0xbfff830ccb086f3906c7f91bd3135eda, 0xdd0d6000000000000000000000000000, 0x5d0e0a18cb95cc7734a97b43211d5136),
        (0x3becbf75ab51a34e1ba02ff6079933b8, 0x800061768c3e19f0e5cc5f0a4065accb, 0x80000000000000000000000000000000),
        (0x1fabffffffffffffffffffffffffffff, 0xfffe813a21f5e9ca3f183a3854ff9a8f, 0xdfab813a21f5e9ca3f183a3854ff9a8e),
        (0x3a874000000000000000000000000000, 0x2332a5ce0549f4ff37f768185de0558c, 0x1dbb07a0c34e391f82faa10f3aac3578),
        (0x83460143cfd65159d517251d623c1f50, 0x91b70a23a6559dbc1d37f11f072d5d9f, 0x0),
        (0xfbf28000000000000000000000000000, 0xb3480f15ec8ae7200e0a2bd897048e5a, 0x6f3b96a0e2d05ab0150f41c4e286d587),
        (0x9ab83fffffffffffffffffffffffffff, 0xd1a40000000000000000000000000000, 0x2c5d3fffffffffffffffffffffffffff),
        (0x29762000000000000000000000000000, 0xadb1cd71d0408a28ef2e575ef5aecd34, 0x9729039005244db7068a11256a32536d),
        (0xd80f40d7d0fd1647ab802cffc03ebfc6, 0xb058376df1dcddfd367889cb3c8c0340, 0x4868864ff9e76d41124df8955b087272),
        (0x80002a7240221d5f1d6a57ec35dcdc1a, 0x66737fffffffffffffffffffffffffff, 0xa672fd5b0199607560fc1f12865a5137),
        (0x2d65fdfc44eb25ca3b362168a716a6, 0x5691ab5ca5d60f48196cbac709590957, 0x16c02ad0197ad42245eb1a51e2a178b0),
        (0xd4cd8000000000000000000000000000, 0x3e98ab2014d00566b17a1d26ba56, 0x94cd779402c07ce0206828dcaee85e04),
        (0xfffd2bde8b16352583705b641b209650, 0xb185dace25c8e1de464b9bc98671f839, 0x71841615c36ec168071425cec0251de2),
        (0xe7b3714b9d10597981f47e29eacaf852, 0x4e96291e69af752277baaf32a629481f, 0xf64aac9c98897ecdce6caa216b065b02),
        (0xea3e6000000000000000000000000000, 0x84d3366f5c53085ed9e6bb601253b685, 0x2f12aad91ef22b826b9d41a419331af7),
        (0xeb2f0000000000000000000000000000, 0x69a2c94692c8ee8187384890dbe6aa6b, 0xffff0000000000000000000000000000),
        (0xa387ee9132666dc4894a6b0714ac43d9, 0x1cd218e639ad87f74f95951364560359, 0x805b0f55ca80718ce5e88e0a5bc7b0e5),
        (0x892f328915f79911599beb7fdec69d3f, 0x47aa058c513c12b41706010730bf537a, 0x90da392dc7a2c0f02acfb20f3e5f75c3),
        (0x80000553c1990aab81d324564e5d2118, 0xd3b6854547949275c1e3e64972a6902b, 0x13b30336c7c1b4025526ca821b91de2f),
        (0xd97da92489ea4acbedc0d558114db5f5, 0x81be95b33ace52f1f03ae52a08e7fade, 0x1b3d50e03a3281c63cdd527e5079fe99),
        (0x6448a35bd1e8382264d705b86e4ae7b8, 0xc8d1c000000000000000000000000000, 0xed1b6ef057ab311e183c250160818ac1),
        (0x6c601c6c276f50455bd2cf2f2dec4a74, 0x5c71d41ddad2b2db7c0140ce68f1, 0x2c609ad556509408cadc0f28d5bf9b13),
        (0x3fff0a3ea05bcca1d6520c5196fb4c83, 0x80004da09b55ec257883c39c27eb5d11, 0x800050bbdeed1d681a35c20d0bcc9898),
        (0xcd8e7f4a344b5d1568c10c081cb1bab9, 0x8590442cbcf823bf1747242280caafc4, 0x131fe55ce5de629259fdba695428e2c9),
        (0x8000f886e840272eed4cdc195b087176, 0x65d92000000000000000000000000000, 0xa5db1797c5482c14caf6779c86697fa5),
        (0x6b57bfffffffffffffffffffffffffff, 0x66c23af634e08fa7c3cc701e224f, 0x2b5867a7ce5db911f6cb2d4b88697814),
        (0x43d6bfffffffffffffffffffffffffff, 0x98bb9b24d7d965a210b31480c209dfc6, 0x9c9367c03cde38edce9cb1f0a9c8a3cc),
        (0x252e9f2ce5c97f32e902f2a4506413d5, 0x8df59fc7f9a73dd00a98c587e287df81, 0x80000000000000000000000000000000),
        (0x2e4f7fffffffffffffffffffffffffff, 0x32cd3d070176e9e943f00b87789d7463, 0x211ddb8a82325edde5e8114b34ec2e93),
        (0x1c450000000000000000000000000000, 0x6bc19676b7a6738cbb02c335bbb27e4c, 0x48079676b7a6738cbb02c335bbb27e4c),
        (0xa9ac6000000000000000000000000000, 0x5b51644f6a471c05d7d5b03bc4b5c0d5, 0xc4fee9ed3221c68808c5d2522e79e925),
        (0x906affffffffffffffffffffffffffff, 0x98a002858d567fd01803f2507855, 0x80000000000000000000000000000000),
        (0xcbe2a000000000000000000000000000, 0xce6758fefb25f5e0f35f221ff32df179, 0x5a4b184f2c0ed7c6c5bd4bb9f5955432),
        (0x485935de63c6a1cf2050c1919c1a0a81, 0xbcd737883ff2d7b7a8669aa00ccae00, 0x1427c1a32a9d4e3c9a46e1f74cd3d719),
        (0xfffd921f8f60de09e9f6eac32e9a3965, 0xd7692000000000000000000000000000, 0x7fff0000000000000000000000000000),
        (0x66d6c000000000000000000000000000, 0x10ed2f7d6b46d58cf504e1830356510b, 0x37c5098dbdddfadb56644552a2eb86ea),
        (0x84d158a6636713be812b443b7917, 0xc3984000000000000000000000000000, 0x83994c0b5d9ff881b15c42ec2a94aeba),
        (0xca85e4482cf5bd02af81b1bdcd5ba123, 0x1119597960acd02342208adbee4d7, 0x8a8802c5fa5b516a66f5c9d7dacd25ee),
        (0xba7292ea595b3610c1e5a77e729fa079, 0xc000c02b67fc2ca936c09fc4f8f0b38f, 0x3a7460af36b2e7eed574d8e30a1b6b30),
        (0x5379ed66b3d4a974720ca4ea84cdcaff, 0xad6624c086bb3a24f95e8df9412f4f5d, 0xc0e11a1e1ae9067f8f22a5f395d01f99),
        (0xe7a84000000000000000000000000000, 0x3c2f56f561f7e5c9fe0b431f3cf6396a, 0xe3d8acb2ba75df3c7d8e13e70c33c7c4),
        (0x4afebfffffffffffffffffffffffffff, 0x4ac4625eff9dd8b3e4ee0bb6b755, 0xaff05af584c7ea87675a14128ff81a9),
        (0xd4ecbfffffffffffffffffffffffffff, 0xb6df4000000000000000000000000000, 0x4bcd17ffffffffffffffffffffffffff),
        (0x4a5eeabe0b54e4320ee88db1844b, 0x455904945d67aea46de4a34eeccd1c2c, 0x5592ece01ad4e5226ce360c729f02d9),
        (0x374860360ecb71b6f930ecd14cd5767d, 0x1081c23283256c8cd38c49fdad0130ae, 0x7cb35b2427fd42d529c1ccae604a42a),
        (0x6d7c2e6fef1d2bbb8d4399d7d7c0e559, 0xd07b9f585de2657068181c5f6286ea39, 0xfdf8eaafda049c71b865f7b160e605b8),
        (0xf1d15ae2963115de374fd5790efe8ceb, 0x213070ae9f6a3083ef8dc82f6cd18366, 0xd302f39255eb43a43c2a24fc4a66df6d),
        (0xc4a274480e61a8b120a72d223a32, 0xb1f4e8777484bbc5308dd0300d974db1, 0x80000000000000000000000000000000),
        (0xaad1db409331302b7fe713fd43f5e81e, 0x2adb2000000000000000000000000000, 0x95ae0b5452cbab1877f1fb3e763a5291),
        (0x152682af8a24f1a4b0c3ed91601ce941, 0x810f6000000000000000000000000000, 0x80000000000000000000000000000000),
        (0x1c551af341122ae8a7208debc630f, 0xa96e000000000000000000000000000, 0x0),
        (0x6f4d53610b8cbae486cdc910f45d, 0x87362000000000000000000000000000, 0x80000000000000000000000000000000),
        (0x5af79f7f3a07f5251bff60f23a1b42d0, 0xec4fb70dc2dde47e81a40f1c1d7d, 0x1af97f8aaadc86ab0c91ce6ffb5bd1c7),
        (0x71166000000000000000000000000000, 0xd0dacfe8a65c539bb4f8558188b71091, 0xffff0000000000000000000000000000),
        (0xc6496000000000000000000000000000, 0xbfffa1e4e6e386f9296a8c907b274d65, 0x464a1f4d5ebc6ccb4c7940a354ab0535),
        (0x11923fffffffffffffffffffffffffff, 0x379a7fffffffffffffffffffffffffff, 0x92ddffffffffffffffffffffffffffd),
        (0xa131ffffffffffffffffffffffffffff, 0x78b95ccd7cc467abed44802cf30c3819, 0xd9ec5ccd7cc467abed44802cf30c3818),
        (0xca6f03acefe58eff8b0d3ca0cc5ae95e, 0x56dbfffffffffffffffffffffffffff, 0x8fddc66ea3d1ba3f33572a19659f1863),
        (0x17b67c55a64e20f9a6e84ed05b016, 0x717517fc4310733dbed2a69777be, 0x0),
        (0x7ae63a5110fcc1eef2eb687ec54a540c, 0x110e68a7ab5a3d53a9c4d93e6646f, 0x3ae84f1130e82df2f03588cf77e0c8f9),
        (0xf240177da47615eeb51823cef576, 0x9520000000000000000000000000000, 0x0),
        (0xf988078bf2ecdcfa8c5877cb46a8, 0x8000e67f6e4c1229308705019d405a9d, 0x80000000000000000000000000000000),
        (0x66636cd0d36ec1d5c2d127df74fff34a, 0x80006e1a1e311b549796307cdc9fde86, 0xa66439cde62b08771e5a2426a3939307),
        (0x12861fd1d128efedac00b47be5100f6d, 0x8002aeb848078c22a5e35c43997dd16e, 0x80000000000000000000000000000000),
        (0xdecee000000000000000000000000000, 0x1afbad16cc3ed259068e971df66a9, 0x9ed194bf2455f7ae5337625adac1703e),
        (0x3fff62fb51c06e5dfc156ddf982cf08d, 0xbeb17fffffffffffffffffffffffffff, 0xbeb20a3c7d5052c67d101267b221b469),
        (0xe5a3ac4665342128713e98895f8c02d2, 0xfda90000000000000000000000000000, 0x7fff0000000000000000000000000000),
        (0xef477fffffffffffffffffffffffffff, 0x80009ad58412a57a88260bcf63ed6a18, 0x2f48d0808c37f06f9872236e2bc83e47),
        (0x80005b9052c746b8a2ff01625bae1338, 0x27273fffffffffffffffffffffffffff, 0x80000000000000000000000000000000),
        (0xad3ed6a78483b852650123704fbc06d2, 0xaf0104de8609de03bcbdd5e690a57cdc, 0x1c40df9b3e4884da45062a6064d2082f),
        (0x644dbfd7778286fc3d6877c0ab36, 0x5d64c000000000000000000000000000, 0x1d655f101f722248d872d6eda322573d),
        (0xe094ec1a421f090e6f8c4cd01084aeb6, 0x980ea000000000000000000000000000, 0x38a48fd555b9375bbaa1fe690d6bcdf4),
        (0x800073feafb65c5652fee540aa3f4e36, 0x8002852ff525bb1b1bb34269db756f64, 0x0),
        (0x79e8c3444fab2b4a86cc1bc88ee32d83, 0xdb3c0f047aa135cf1bdd28d9c1d9c026, 0xffff0000000000000000000000000000),
        (0xf6d2175d6976ca08916c823053f3ddf9, 0x2cdfb64d7c6fc739f78b013383f4b374, 0xe3b2de4e6155306490abc8d28faf5a5d),
        (0xf796dcba3ed60e49568d9b55d07a04f0, 0x82f54ef6f36c1b894e1db7ea349ac559, 0x3a8d37e36f20e1ea3883edd093df1e68),
        (0x91d47fffffffffffffffffffffffffff, 0x29dcf4b949bb8adce7bf60408c80942f, 0x80000000000000000000000000000000),
        (0xfffe612a6928984b8c94d47bdcb2655a, 0x32c6020be4ce5697cb9a9f54559c35bc, 0xf2c563fd2673db791d747958fb0e4fee),
        (0x4ac672c1479aafa08c19d252ee38cfff, 0x8000a766604e9e2e9d995a99e83d1913, 0x8ac7e4e0b4658e10ab0ab38ed9610965),
        (0xcd492caffc6b2c290c3941ac8a079f03, 0x800064de37d80b221a51716152faebd0, 0xd49d9e703394befcdaad4c15b99b19e),
        (0xce42e000000000000000000000000000, 0x8000e7aa994ae1d6c189317bf67e2d19, 0xe44b25fdf6c6772aae13cc86e2c948f),
        (0x49130000000000000000000000000000, 0x2e77e727df6384bbda960f9426ab8ce4, 0x378be727df6384bbda960f9426ab8ce4),
        (0xf286ffffffffffffffffffffffffffff, 0x6743ee518d7d08f1e7a6e948c73a, 0xb2879d0fb94635f423c79e9ba5231ce7),
        (0x7a7b728d3725cdeec9241670eee9ee79, 0xcaccb27da34be76e3a9ddce9771165cf, 0xffff0000000000000000000000000000),
        (0x8ffb28088a7f3c75b6b3f0816b536041, 0xe62a7fffffffffffffffffffffffffff, 0x3626bc0ccfbedab0920de8c220fd1060),
        (0xb437a000000000000000000000000000, 0x966774e77379be780df74988df32e756, 0xaa02efc0dd2eac18b58ebbf35595bf6),
        (0xa7a5ffffffffffffffffffffffffffff, 0xc000e896ac608d55f87011e57351f9e9, 0x27a7e896ac608d55f87011e57351f9e8),
        (0x13cd6000000000000000000000000000, 0xbceb2000000000000000000000000000, 0x90b98c00000000000000000000000000),
        (0x771de50ca6b2407cb9f785bce742ce4e, 0x2509c1335f705e96dced8e6e9fa5d63a, 0x5c28a98e435c399d961363b4f1ae157e),
        (0xa356fb3f3c044db90ab10eea98a130e6, 0x800063b4aefadcb26ea02b5d010e108c, 0x0),
        (0xb6079eb314921676ef2d8b047913352f, 0x9aa3129f655905ecf8496afcb5571886, 0x10abbcdde16affc06836433530564cbb),
        (0x1e142000000000000000000000000000, 0xf134c000000000000000000000000000, 0xcf49f800000000000000000000000000),
        (0x5e7210c7140491607dc5f2dee79a3cca, 0xbfff17d536b322e51389b356c93d40cf, 0xde722a2c26bd80d79bc665e64a11e2fd),
        (0xace32000000000000000000000000000, 0xc6881d112701a204f2ce7892c12f, 0x80000000000000000000000000000000),
        (0x301ba241a896be835298108e4c58faa, 0x8000f5d01f722b439ace953547bf0415, 0x80000000000000000000000000000000),
        (0x93894000000000000000000000000000, 0x2f1a6b0456a0057f412bd55e9ac0a5c6, 0x82a4c5c56c4806df1176cab64170cf38),
        (0xea4e25e924b1aa26d661b6138ff390d2, 0x398c3d0cf5ee4d29cc13ed398ca355c3, 0xe3db6c0093b76f7b52f960d9b91651e3),
        (0x800010258eb0967b2459e3d2d0865969, 0xe4fb4000000000000000000000000000, 0x24f942ef25cbc19ed705cc784a7efc34),
        (0x123eed1d260f8c2faeb04b825ac64, 0x8000490ce05d8347310f9b8988e5ba50, 0x80000000000000000000000000000000),
        (0x4dffbfffffffffffffffffffffffffff, 0x3fff940fcc589312bffe809a25a15f79, 0x4e00618dd2cd80b067feb086e0ed3389),
        (0xfb6ecae3c3f7b707aad0940e29766029, 0x33b1d23e59ac6df917f81313e009, 0xbb6e72a8818dc9940b062ec61783b2ce),
        (0xe3fa8000000000000000000000000000, 0x6b66ee108876bd47fb2fb624a298e767, 0xffff0000000000000000000000000000),
        (0x15e58f6872a1b59cc42d3562a7a68b48, 0xfffd220ccd2e78a8246f790e24eb0357, 0xd5e3c4884adfb41f7c3136634265e4b6),
        (0xdbd5418ce83182f981b6d3c3f708, 0x475981eb9ab776431fc928eb90bd39f2, 0x75b4b660933e9fa2b26e6b87a120b03),
        (0xdf19c4e1e98fbabac25e560b0dac3a8b, 0x19bbc12605dbcd4962ad6a2f9440c, 0x9f1c6c31b431d1a76408698a0a4b369a),
        (0xeb6cc000000000000000000000000000, 0xbfca672f3d3c1daa04972c6f37a6, 0xab6e4fa23492ab2933e988088dc2a162),
        (0x7ffec8e590a6947d4ade1e2178263dd7, 0xe94ea000000000000000000000000000, 0xffff0000000000000000000000000000),
        (0xbfff429dfa6c154e9bfc8a7598a90510, 0x56b2716f14e4c3f209c1acbe9100e23f, 0xd6b2d191b2ca02c6613c73471b5f0aaf),
        (0x938da70790e2213e5b31b6db6a27110d, 0x76bac856e67d2af209e5bc142de4, 0x80000000000000000000000000000000),
        (0x7829e4af8e67717fd68ab1c717647f00, 0x62a3f9440d62c533e59d7794b6df0971, 0x7fff0000000000000000000000000000),
        (0xdc533fffffffffffffffffffffffffff, 0xe8a6f699ca0d47de59593a88c91dc844, 0x7fff0000000000000000000000000000),
        (0x80001aa764e0019d52458113134643a0, 0x553ee59b8a5af685a5fb618e1a564865, 0x953d947a9ef15ca81f64bc099ade3873),
        (0x800043d0c4605796eca840c588ca1345, 0x5022c043d5bf25c86030f01f0d8f, 0x80000000000000000000000000000000),
        (0x1e81515b76ae80e774ce5b4f0a157, 0x283c46cef7627ed4a948f4d9940c1fbe, 0x0),
        (0x31bd94c348aca88fe9d75f61a676feee, 0xc2efd0972a4c1d652d4d28b7100c010, 0x0),
        (0xa481065caf1286d294982e022c04779d, 0x4000919c6be729f63840b3423b3eaff0, 0xa4829b977d4c5a49e9e76180ea1fdf59),
        (0x400028f1e82a5e1a265354fdc931e1f1, 0x2cd63a553ca024d0ed8f380811417f36, 0x2cd76c9b956881ccb6fa8cf44ed3c784),
        (0x8000c18fd6f87f79b781969b7809e73b, 0x6a533a4d74adbca96f7aa22d7bcb0086, 0xaa54db49fc51feb880ffe04fbd17e7bd),
        (0x5d9e187049d3ce87db3fd90b8413e977, 0xe3c30000000000000000000000000000, 0xffff0000000000000000000000000000),
        (0x80008a59a39b1c0bf67e5cf9833b4cc3, 0x258982f2359909a69ce8f287e32eceea, 0x80000000000000000000000000000000),
        (0x46758b5163e9fe6c216414e08e83ec93, 0x80002bb8593376a9096385c8aacf0614, 0x86750e0d601b886b4eb5cba7f802303a),
        (0x2ac243d57f46d7c840904dff2690, 0x23ee2d5cf5f2d9e77195f054dfeb2ea9, 0x0),
        (0xfffd8e5f3a9ded65b395e5f30e23315f, 0xfffe8c391bde1d582bfbb826b24ff8b1, 0x7fff0000000000000000000000000000),
        (0x264affffffffffffffffffffffffffff, 0xf268ffffffffffffffffffffffffffff, 0xd8b4fffffffffffffffffffffffffffe),
        (0x2ab0349f4f8c919c41e90de46cb58ed7, 0xb02b6698832bf5b9505de77d5a522f7f, 0x9adcb04ea5f853ca233778857bedd5e8),
        (0xffd57fffffffffffffffffffffffffff, 0x7ffe9b276fab28fdaf0b8972c77594b3, 0xffff0000000000000000000000000000),
        (0xbfff33925800d35373c33c53611edcc0, 0x7f12680d7fc65c4a5bf82d98c06899d8, 0xff12b09603b38cf27dee34bd93ea31b4),
        (0x3fff59354a16c60fbeeb49e77363c225, 0x19b06000000000000000000000000000, 0x19b0daa945df5055a683859e3ea92af3),
        (0x61614aaa272b879205fc99016428f8f0, 0x8000be3b841e050070bd0411b71107a6, 0xa162eb6e51dfb07f18f8f145322deb39),
        (0x1826b7164c1b2b303ffd8b106d730143, 0x557f4000000000000000000000000000, 0x2da7126def90fafe27fe76ea4467e0ca),
        (0xa2241b1547b99885096e6a83e9bc9bc8, 0x24af9e4d5067febd9094752b65a99be, 0x80000000000000000000000000000000),
        (0x8d733a6d24262ab782fefa21950e3018, 0xb4d1e000000000000000000000000000, 0x24626c651e3c80c0acf0a7f7bbd4d16),
        (0x3d5156f2819f586c403cc054f8fcb85b, 0x7cab080cf712558ba432d2c7ebbe7b28, 0x79fd61bb7406f15f39840d6ee11ebaac),
        (0x99132610f298f8cf5aa9d4d4cdfdc7a4, 0x615f3fffffffffffffffffffffffffff, 0xba736f952f3f370331544a0a017d398c),
        (0x62354000000000000000000000000000, 0x9032a2a964238706b699d7714fb5d290, 0xb26905a9de963464322026a6d1d1a39a),
        (0x8000e9cc7907015dd45c30598f368144, 0x5e974000000000000000000000000000, 0x9e99243f9748c1b549733c6ff3042195),
        (0xd25b0000000000000000000000000000, 0xd29a6a915e38d486ea0c3f4782396b69, 0x64f66a915e38d486ea0c3f4782396b69),
        (0xc0008cec21c81d0624d6bd308b576690, 0xf2f6d1448e562f8fd288779887fc, 0x800278b5e74eb4b9a762d0c1d90f98bc),
        (0xdf9854d06b081834816231268002d9e7, 0x212bde3e51340db3c345f38a582ba, 0x9f9b6dc3dfd375dbccdda1bf5caf302a),
        (0x8000caf97159310f3a7614510e0df911, 0xa7b5e385948fc4826dfbeee8cc81ea3e, 0x0),
        (0x400efbd55d423d3569c63e1219df9658, 0x67bedca3d5027295bfb413ebb081ceab, 0x67ced8c2dc6776469a10887edd979983),
        (0x49ccc53ba43644fb53f261307fea44fd, 0xff68de8018bd73a6967cd9d62a850154, 0xffff0000000000000000000000000000),
        (0xcfc54000000000000000000000000000, 0x8002ec8944c2f0dcd2c865257a3b6b24, 0xfc933d5caf9d68a03bd3f376c6522f6),
        (0x7b8272defdfd750fd16d20d4c346e710, 0x5fe133d7f1bc27e63a0eacc5a8a108be, 0x7fff0000000000000000000000000000),
        (0xce934000000000000000000000000000, 0xc000204ab8b6d33d127f0708864835b8, 0x4e94685d66e4880c571ec8caa7da4326),
        (0xb3a2e000000000000000000000000000, 0x8000a7637d2bd66b2ac3cb67b8f939b1, 0x0),
        (0x210cb22327397d8a5542542496f205ce, 0x33ae0240610e908e07879eb15fab, 0x0),
        (0xc1e2c000000000000000000000000000, 0xd68543378eaefe57ed7c1e65492e7b1, 0x8f4c29ad09cd91e8cefcc9a98a008abb),
        (0x73f63ac5e5f8e4dbca66a0760a17065a, 0x1b13fffffffffffffffffffffffffff, 0x35a889775f771e12bd0048938c9cc7ef),
        (0x99a55e297e25f927706ca9e4dc87882b, 0x22bcbfffffffffffffffffffffffffff, 0x80000000000000000000000000000000),
        (0x8a40a000000000000000000000000000, 0xe8f3fffffffffffffffffffffffffff, 0x80000000000000000000000000000000),
        (0x56d89f74efd15cec562ac6cb28cd9440, 0x8000f683da68160dbcea350ac4510077, 0x96da901059bc66f1b60e57020daa7048),
        (0x6f0a126f867ed7453fb45aa2858dbd57, 0x9e6a59167e3c93d36ba5a9e37b4024ba, 0xcd7571f0692a53d17608f69ae505d495),
        (0x344e0000000000000000000000000000, 0xf0e12dc369fb5c62a28ecec6fa109e03, 0xe5302dc369fb5c62a28ecec6fa109e03),
        (0xd7e6318d0c1d176342ccfa5b555c, 0xbc111c18cdd855ac868c962ad018, 0x0),
        (0xfffde311adec98d4012269dbc4f58eee, 0x8000b01b22fd3914e18f3eac42bf89e7, 0x3fff4c4f5c762e4e84ff149786e8ff6c),
        (0xb3492000000000000000000000000000, 0x5d3dfbd687b76931ee0bcabe8f819412, 0xd0881da8ac572b2c15e6a20b30b8e34a),
        (0x5cfdd664b6e50745fb3b948c92ffd6c3, 0x31bc9edb694faae0c2b182811c0fd1cd, 0x4ebb7d2504b844e25291eb0d4e357f74),
        (0x800052fc3a04ecdd2720f277e5642c25, 0xb7b98000000000000000000000000000, 0x0),
        (0x8000ee5dfe948c2bb391fb94a8d00987, 0x829cba0abf353727327276c07e80f5e0, 0x0),
        (0x3a396000000000000000000000000000, 0x5f8d1d9a64226ab3120e8e01c5e7ebb1, 0x59c788b449af52b638d40342701ee413),
        (0xd3b49075a8d69b930ee63c4b48e0a9ca, 0x3fff6937805bec0090fb11aa145a1566, 0xd3b51a865e944374bc8f3c4c9ce34376),
        (0xfffd4fb101c4d0b1fff91ca9eb120e15, 0xfffe227a410fa1126067b084228af2be, 0x7fff0000000000000000000000000000),
        (0xf727c55a64f3f15dc6236724aa58ec92, 0x2a134be1e0de1baee8f72b2c3140d, 0xb72b716ad2be16e87f9187a9e3bde153),
        (0x85fb9bd89dd881f4fe252051e538, 0x9c19d59d368c0c157c10c421aab0c348, 0x80000000000000000000000000000000),
        (0xeae1643c32fbae0319657c899ffcc6f4, 0x7078cca028a4e4ab8e55dc96e638ac01, 0xffff0000000000000000000000000000),
        (0x80009691caedc14c52a6950922bb4aaa, 0x80003daddb82d215175b00bf0339388d, 0x0),
        (0x555affffffffffffffffffffffffffff, 0x80001322198021ea00029fac446b9046, 0x9559322198021ea00029fac446b9045f),
        (0xd9cf7e86e0a755e1db37468d52dc3ee5, 0x5e476775fd60615e15e29f2231f80f43, 0xf8180c8fb9a55300a54eda68260ef117),
    ]
}

/// Pairs of binary128 patterns and their quotient, rounded from the exact one.
fn f128_quotients() -> Vec<(u128, u128, u128)> {
    vec![
        (0x26ef3fffffffffffffffffffffffffff, 0x76a0563b99ca6f570836056d504e4464, 0x0),
        (0x46337aeba7149314bdb2ae3382815db9, 0x4425bf93a9723ca114c8dac79205a705, 0x420cb17623bed45050e7d6a6137e67ca),
        (0x786e9956e87a82486230edb301851a59, 0xad607fffffffffffffffffffffffffff, 0xffff0000000000000000000000000000),
        (0xcfbf7fffffffffffffffffffffffffff, 0xa976d7106040569e5309d20317f216c0, 0x6647a15ebcaffc6159b3a127413f0bb9),
        (0x800083f9b2edd2850e71242e71e4b846, 0xcffa4000000000000000000000000000, 0x0),
        (0xa2cd66850ec67b61b09772c87f5c, 0x7a14cd01f5e913b6af4e5236a4e3, 0x3fff556402c3713e1326b19cdc455d15),
        (0x94c284bafdb646a9d587b14a37cd10ee, 0x8000277960d3981d4b0c61760146276e, 0x54c33b2091448f806b4de0c0fa72b926),
        (0xc8e5bec3ac4ce5757323e578e9472065, 0xfc30c806d9c019e4119f3fcbd930, 0xffff0000000000000000000000000000),
        (0xf98ecab17e5bf6abd66c32edb18db862, 0xd08306116ea0f2675b196c1741ab, 0xffff0000000000000000000000000000),
        (0xe6c87fffffffffffffffffffffffffff, 0xbfff6bdf447d11fc00d4eb5bc31e11ea, 0x66c80e292c543f4c476829ebb5d6e35a),
        (0xfb4c8322355192d4418665bf8d97f858, 0xd22ebfffffffffffffffffffffffffff, 0x691cba703cef833bb89998daeaf6d2af),
        (0xe1ea639cd339a6ad550e9d87fdd3041e, 0x537cfe35cb373884698ea81e6d67, 0xffff0000000000000000000000000000),
        (0x1f385b3d72defed247d203b55a0cd, 0x9fe0e000000000000000000000000000, 0xa0200a6970fb4bb3292487001fa5228f),
        (0x8001a798eb7a35bdf9733370de98ba5b, 0xb3412c660410355164bf431849de6423, 0xcbf68fd7eeded2b275ce8734f72830f),
        (0x80003f66ecaa4bbf2e23c6095fcaa027, 0x8000940b78ce876ae5aa79407e392fa4, 0x3ffdb68a75366698d5b6ab3e56a7ba73),
        (0x7ffd7fd4d5c7e00d33f7c77fd8bf4ea6, 0x1fddf032e0700c73e3021f1ef7beffdb, 0x7fff0000000000000000000000000000),
        (0x8000691324ae38ec7ae2b2fa0ae1a2aa, 0xc1d0bba26a1843aa06bc691bab93, 0xbffe15932edbdd409336c7a59024a6ee),
        (0x283294b571e713c9f7aeabd57b673676, 0xa3039d7cd6bde957bc1c1e3aca8f3aa7, 0xc52df5212b9f043ac6338711c7bc8701),
        (0x80019e732ee7ddf66f986c9ac495d9d9, 0x239c2000000000000000000000000000, 0x9c64706662953713f16b0b343cf6fa88),
        (0x9e16846c3ce923d7595ca3244150bb7, 0xc77f4645513e1b12dd7eac42dd46751f, 0x82611aae819e8045f91d1f55b9d6305d),
        (0x85b16552db6d949370aea571f30f05d1, 0xf79afe0b0f91e5ceb8ca886f89ee5de, 0xb636a79d58b2def58399842e0771c70a),
        (0x96ccc0275f1aedb0c190ec423a62f890, 0x4c4a266be551091d20f247b4c26bfa4d, 0x8a8185aba8519147c885026ae221edf2),
        (0xadc88b5012320a325c4999b81da06b1a, 0x166e28ed43b652a5725889157017e6ac, 0xd75954d330e4200734ca023ee71e630f),
        (0xe242dee5b5a4c9ef8b98d22cc8dcf7e3, 0xc8adae8a2ee79d6cc6e077e7da40107a, 0x59941cc0e57fdf04be0f93084f7581b0),
        (0xb4bd2b99e9b25123ce20669ca44ef4b8, 0xbe2a2078059acf0e407827652973, 0xf4bb9352ebb4cd394da3ac18121dd6fc),
        (0x39f25432fb1ef16fc9605807bb52402b, 0x86b67fffffffffffffffffffffffffff, 0xf33ac5994ed3ec950c80755fa46daae5),
        (0x7fb08519d6ea818d22b9044b80e91b33, 0x5a063cd3ac20ee3a4058dd680d46638b, 0x65a93a65fab564aea7e359de19b063d9),
        (0x787b6000000000000000000000000000, 0x41f6b9dc40fac5c1b401ceea0194106, 0x7fff0000000000000000000000000000),
        (0x800059fc36de258857d8d0aac7f89a3f, 0x4ec7362bda0ed4e00b4b6676b3d2a286, 0x80000000000000000000000000000000),
        (0x5a6a1c0fa4cc37051e29ff7a1632d52b, 0x42dbc207a5e97841fcbae41e48e4d135, 0x578d432d4d50fff81ac3d798fb237a6d),
        (0xa9b0e000000000000000000000000000, 0x27dfebd0ecadd5eaf194eaadd5a87041, 0xc1cff3b2ef1f831de62cc890c9dc2f4f),
        (0xa9a018e80cbc2604488273a8d43a1531, 0xf2d705d74cbc5fd83cc38c779d69eded, 0x0),
        (0xfc3d2000000000000000000000000000, 0x379ee000000000000000000000000000, 0xffff0000000000000000000000000000),
        (0xda290acecfa74ba6660f7426353b, 0xc9d1810d16241fa8c054988247067338, 0x80000000000000000000000000000000),
        (0xab0ed2878228e24552a25a81b5c71547, 0x78a45c319ddab2dc107de8de883f, 0xeb0deefba59113ddb07c2c7d4ea7ea32),
        (0x7ffe53b79efef6ee7c4e281c1615041d, 0x8e3f1b0c030bdb08b4397432e8e5fbc6, 0xffff0000000000000000000000000000),
        (0x95c1e000000000000000000000000000, 0x7ffd727dd79a35db792897810dde96d6, 0x80000000000000000000000000000000),
        (0x80cbe000000000000000000000000000, 0x22b52000000000000000000000000000, 0x9e15aaaaaaaaaaaaaaaaaaaaaaaaaaab),
        (0x80007aa9d893d96ef85d4d86596591b7, 0x9189c000000000000000000000000000, 0x2e75185fa5e43a2237b0b133157a71a2),
        (0xe389fd2baffa822a317c61632151, 0x5cdd3b96e42d6be7c6ba6ee30c8daecd, 0x0),
        (0xe863bfffffffffffffffffffffffffff, 0xfffdad3f28895932ad40e1c727866d04, 0x28650b2f30fac34db90b0202b7c4ec04),
        (0x9a104000000000000000000000000000, 0xc3867a0b706986a96f75a57093c4ec4c, 0x1688b1634ed9bf48b4635f213c332d71),
        (0x713affffffffffffffffffffffffffff, 0xf2a0e000000000000000000000000000, 0xbe991111111111111111111111111111),
        (0x86b0ffffffffffffffffffffffffffff, 0x5a33d70ca3da972ae1a427d1ab271224, 0x80000000000000000000000000000000),
        (0xbfffa63407b7c0fd9a75edc422a06a2c, 0x8000119a786fc37412f1b15fc21a63c6, 0x7fff0000000000000000000000000000),
        (0xc0c15bc2a48d5c8dfdfa7a50cd82d3de, 0x2a3267768d0903859cdacf93fc6d91b3, 0xd68def54c9e6b2d2fc91c206941092d5),
        (0xa9cd8c17b669852469566ccf151a, 0x396fe096efda30cb338ed95181745d13, 0x68f69cd43cbcce60e2d819c5eaf8a4a),
        (0x3fff24649247cb5bc2ca89da6724743a, 0xacb815bb4675d2c9422c37533cc60756, 0xd3460d839d136e1debc04c0f5718ea62),
        (0x8cf52e3d03f065fa1adb7aaede49, 0x61746000000000000000000000000000, 0x0),
        (0x7ffe0ec32784e1f5cccae955d99e6ae6, 0x5fefa7624b4f4d33b27fe349416f, 0x7fff0000000000000000000000000000),
        (0xeff67fffffffffffffffffffffffffff, 0x6111042223ffc13162ece56627b89eed, 0xcee479e602469c91b3558cb1b7a40719),
        (0x9c57cb685fbd646d6062b1dfec7d3423, 0xb94f0000000000000000000000000000, 0x2307cb685fbd646d6062b1dfec7d3423),
        (0x3321bfffffffffffffffffffffffffff, 0xbfff4022d83c461185ebcbf44a23a611, 0xb321663f63fbe9042bdee3873b086e51),
        (0x3b2fbfffffffffffffffffffffffffff, 0x86987d90e136ee8b4c1751112671ea61, 0xf4962c92684b5cb6ba255c565d5db520),
        (0x3cd1252c8d9aa28e80f8411162f62c97, 0xbe0370c6d9d7514b7fba6ca04d044d90, 0xbecc9708ffeb60388511c487ff246636),
        (0x1b78c000000000000000000000000000, 0x4aa7400cd0a4b9fe4e030311c8cea59a, 0x10d066580ca76db0e47ef600248c1103),
        (0xcaaa0a5db1a3dfdbdff28f474952, 0xa8b2fc9d87f6d6dc84d9f787aa8b51b7, 0x974c9806978a8d0b4077c12a9e21da69),
        (0xe75f2000000000000000000000000000, 0x29597785a77d881ca2d613f216a18, 0xffff0000000000000000000000000000),
        (0x75398000000000000000000000000000, 0x800008dda61ad6c3cd0cd4576ca8287b, 0xffff0000000000000000000000000000),
        (0xde5328f376cc73428e0d1e49d2a8, 0x1e453ed0ab1794949ce21ed21dc9, 0x4001d60e09866b925af46719af0289f2),
        (0xfa197fffffffffffffffffffffffffff, 0x54c7ee902ff17866005673df33bceb2a, 0xe5508d89e50b55663482d6ecf03dffb4),
        (0xbec4c6939651f0e75d07b6acbebb3f8f, 0x9145a000000000000000000000000000, 0x6d7e17bd48cff6b5c318706a4dfd136c),
        (0xa7822000000000000000000000000000, 0x4b3f9927e1d601c48d807499648c7c3a, 0x9c4168640e4a3d573b6229d11d28307b),
        (0x4e79ea80222341d7b1a0c61bee9ed4e5, 0xef3a7d8cb51898d0ae068c9551dc4ab, 0x7f8528421db0f8a9ca51580e404698d7),
        (0x93683c12c15759b59d25fdd63b5fa9a9, 0xc04d0000000000000000000000000000, 0x131a3c12c15759b59d25fdd63b5fa9a9),
        (0x819bfffffffffffffffffffffffffff, 0xbc13ba4ccf9269e9b7dee9425e6297ce, 0x8c05034c91636715fd9af2209c229e46),
        (0x63b6d957fb1d3512bbd71a31fcf8f2f8, 0xca087fffffffffffffffffffffffffff, 0xd9ad3b8ffcbe2361d28f66cbfdfb4ca6),
        (0x8000fb147b66e7518ec74c66a2abaccb, 0x334d082af366d594bc2f4e340c8c3c69, 0x8cb2e6a23f83c7d680c6973edc30a49c),
        (0x8000341dd1686e49c708449e7c9f9e3c, 0xce8e699087ac18b4219c25b6ec59, 0xbffd025de0f448e31cd8ae2140b7fac5),
        (0xbfff8b6bf38984e6f014e2f72d273e3c, 0x66c20000000000000000000000000000, 0x993c8b6bf38984e6f014e2f72d273e3c),
        (0x43d64dd7e2880bf3e4bc7878aaf4c875, 0x8000aa7a3a41cf0fe76729182b56b15e, 0xffff0000000000000000000000000000),
        (0x23fb76e710bbe8ad1dae1c6dcdafc626, 0x704166c4d006e3200f0bfff3355f52af, 0x0),
        (0xfffe639b3e31abe0a43cf63c8d149639, 0x80005438be5c856dbea51a09369b6954, 0x7fff0000000000000000000000000000),
        (0xd6d96000000000000000000000000000, 0xe3cfa3f8d5d916c35bb8ce71d973, 0xffff0000000000000000000000000000),
        (0xbef48000000000000000000000000000, 0x6ba08fc9e31697c0cbc684112e91a152, 0x9352ebc7a62d9ca6ea2066ba0093cf57),
        (0x5a3c597b3aa9069be3f1d15cd62d4329, 0xf10a4c0943a9885bbe5d1ba5415487ad, 0xa9310a5dc1834e52517a5e953b8792ac),
        (0x738b56fd04e341d5b9113656b50138f8, 0xcf694e56bc3a688b2033bd3fe68d, 0x7fff0000000000000000000000000000),
        (0x5943f5a99aefb93884968b7fbb85efe1, 0xa4e571373ad7399e5effda669fa0fd12, 0xf45d5bd56088d12556ba77cd56cc8aea),
        (0x2984bb8f0a367eba0612c5c2e4267, 0x57c3e7b896b1271e27658e9af46a934f, 0x0),
        (0x76fdffffffffffffffffffffffffffff, 0x5843031bd2cff4cdeeaa4035ef27bdf7, 0x5eb9f9db72f11cc3db53ace67164f61f),
        (0xe71dec3c7647df25960fb819499ee50f, 0xca1b098075342b84403110af1601cd66, 0x5d01da9eb91dfeac0a3fdb01c8e3f740),
        (0xa9838000000000000000000000000000, 0xc8852af70858408ae2904f51d663, 0xe981ea3eb21c4c4b66c4f571759e6c45),
        (0xe9c92000000000000000000000000000, 0x45d44378db172de961575fd55d86a3ee, 0xe3f3c7da961e67c607ec5193727f2dcf),
        (0xd22ab982a229758e5504a892930493de, 0x80000ee15c8197f90fe0c5eb70b3d92e, 0x7fff0000000000000000000000000000),
        (0x21ff0000000000000000000000000000, 0x7ffd04b0fbf39ba3d44301ffe4069c47, 0x0),
        (0x1b5d6dc4d73b632b77dea9864a199, 0xbb3b7e6bc9f67eeb9a8fffc8bd98aca9, 0x84c52519192f95305f52f7cfbe396f59),
        (0x779acf502fa9f69363d128dac1deb14c, 0xea777fffffffffffffffffffffffffff, 0xcd2234e01fc6a462428b7091d6947633),
        (0x8000994356773c05c37630f0b668678b, 0xc6bc96b389466c033a40c40b8a67d40d, 0x0),
        (0x800047c8de50260b83b4f87ff976d338, 0xa5fa0000000000000000000000000000, 0x1a041f237940982e0ed3e1ffe5db4ce0),
        (0x18fe90af3fc616835ef01c4ecac811d1, 0x736553d113cc4842691228cfe5eee82f, 0x0),
        (0x72e12353cbd8bb317c164c43f25240db, 0xbe2c67354a16203f291d792992bfd643, 0xf4b39f3edcb4eae9035ff24b55e5f72f),
        (0xd80c71717f5a4afd62e15778bf049168, 0x80027a246268fe8043b9e999bd4217dc, 0x7fff0000000000000000000000000000),
        (0xbd6d1a77bb05baf8dc9190cecc6f00bc, 0x800051d8a1c5c04d3bbad12b9ee28abc, 0x7d6cb9c0eed630369d7bb4cc8ddaff16),
        (0x80000a8f5f0592850904697c46a977cb, 0x5e1a6739645538b5016dfd22707bdd1, 0xba19998d3f6a7262b8d148f1ac182b37),
        (0x36ee1e2c790ed68d099c52b080e5d8ac, 0x6f083fffffffffffffffffffffffffff, 0x7e4c9e0c1b157480f60844d9b095aae),
        (0xc000c3d3bc48a269b657f3d2b9577d51, 0x3dda439ae12b6acb0ee92bed24ac6f3c, 0xc225656f58b2f4e5847723efd22aaaff),
        (0x5b243ecf95f7fb730d19b566fcb0, 0xb855f0343f6dc28a5804b6375e5f062e, 0x87a8782bf7ec80934a05ebe9d5df9d2b),
        (0x3fff906775b179dedd30aef87072dfb4, 0xfffe52f1df866059c2ddc52d90792ff0, 0x80009735ac264969d18c918494479eb4),
        (0x4a8000000000000000000000000000, 0x5fc813ccf532d214546f5008c5a33c9f, 0x0),
        (0x622bc0f1689e8d24db9489ca4cb96964, 0xb3389ce7336d61dd0b6dfdf7af0a8c91, 0xeef21658400b5718d493b5a46722b01a),
        (0x547a3bd576ba3f0a6911811da38b3133, 0x5bda725fa9b59e14bfa84ec1a4d84a1e, 0x389eb49ad41b8dabb0ceb3a601561c2c),
        (0xfe80550680cd24c2b648d3f3af0ac182, 0x8000cf57563127b8557edaadf28a2188, 0x7fff0000000000000000000000000000),
        (0xfffdc3eb396d6b2ed21e0c9060a894fb, 0x1e13a404e11f39a401071ab9fcad9356, 0xffff0000000000000000000000000000),
        (0x78ee6471bcfa7e68759221314da6518e, 0xc000e5b29e08d88582258fdf3bddddeb, 0xf8ec77bf3d3e7d8359e9487992d8def7),
        (0x8f32c3eed8693f80c7bee4fbf6ce66a, 0x1c31644cac303273d8bfd4f55d529, 0x48f054ca3201d5a06656f2a9ad03256a),
        (0xf2afc5bf4e95c9f7102ca2c003236b88, 0xe00a3fffffffffffffffffffffffffff, 0x52a46aff72116e5f4023b56668e922d4),
        (0x1615411faf5701ed8d9a8af392dc364b, 0x8000b33b34b0f8da74c66ca53bcfba8e, 0xd613caab0f082e832d8bb0a8ad28804d),
        (0xf5086c59047ace85aca71bb617876029, 0x80009c38dd9c68df63fb1442a698ccbf, 0x7fff0000000000000000000000000000),
        (0x95d7115b2d3ade578e279dce66ee71e1, 0xbfff49696a09bf6f782cf8f7af54816b, 0x15d6a8dfa1a7078489addd21b815b822),
        (0xe4b7b10ef5c8eaf08eed2f5b638ecea4, 0xfffd9c155a624ab5c7a1cd120bbb4611, 0x24b90d07c78e9cf37e42f20b0804be27),
        (0xa282239323d8b489f96946bbeb2860cf, 0x437bee63bd4103c305c4f801fbb4c3d8, 0x9f052df5f6d97b40d7d38a68135a0b02),
        (0x9ffdf952ac359021359bda2e9a93aebc, 0xe506c000000000000000000000000000, 0x0),
        (0xd950bfffffffffffffffffffffffffff, 0xd8ccc000000000000000000000000000, 0x4082ffffffffffffffffffffffffffff),
        (0xaa524000000000000000000000000000, 0x2de7d4617d104d15d8a0d7809e5d93e0, 0xbc695dcd038488b5788512817e952d82),
        (0x1e29c8187619bdc729586ae603ca08a1, 0x214ef0c7a055e563e3088d94f6e63527, 0x3cd9d611bce7a763d40b01a8acfc1d78),
        (0x28482000000000000000000000000000, 0x8000bdbad6f4cd6e54de605eb5f18131, 0xe84684983a6282f880c8fd04812e587f),
        (0x670b28bdf4dd02ab379dd419d0cde369, 0xdab9fb3fb74a23c55c07556afcd470a, 0x7fff0000000000000000000000000000),
        (0x95ed64302582e7d3cab363f17d1e8fe6, 0x5e1cde8d26555d026268fceeaf2d, 0xd5ece470dd526da97a81e21d5e29cfb9),
        (0x4000122fd5b755ebe9285f5a56fe70ff, 0x171481e0ce1ea74e2497c11fc20c, 0x7fff0000000000000000000000000000),
        (0x80009260e15ae08968e6096a95007f0d, 0xd7f74d5b9e6fea70618db70a70f87ed3, 0x0),
        (0x7afa8c094ca57a1d08b75de304be, 0xfffe68c58c1292dc1bce941e348ea3d3, 0x80000000000000000000000000000000),
        (0x8a7500825b2a3d10520c6cddc9fd9ce, 0x26e8e000000000000000000000000000, 0x21bd666f1724f30116895c9751bb92fe),
        (0x6a28ffffffffffffffffffffffffffff, 0xfae81a5d1a6b5074d0c2d1040ff6a83d, 0xaf3fd032178286b094e8a65c02609b9d),
        (0x5a072a906911e23cb541c3b067fc907e, 0xcbed8000000000000000000000000000, 0xce188e15e16d2da647025a408aa615fd),
        (0xeb223fffffffffffffffffffffffffff, 0xeb71bfffffffffffffffffffffffffff, 0x3faf6db6db6db6db6db6db6db6db6db7),
        (0x14eff5a98d9982b7d0c3a2b632d995d9, 0xe7a27fffffffffffffffffffffffffff, 0x80000000000000000000000000000000),
        (0xfffefae1e52d8bf861690432a94d1113, 0x800058adef09576c768045f1ce63bb41, 0x7fff0000000000000000000000000000),
        (0x20bca000000000000000000000000000, 0x40007336c31dc0115c754f9eb1dfb473, 0x20bb1ee2c3a13c10708edfcd6f7b4b84),
        (0x464361ea7211063126d815dabfd9808e, 0x80017274b9e24d198417412ab7b990cf, 0xffff0000000000000000000000000000),
        (0x3fff3edc0c660f176f870b1f647f98ff, 0x7ffed35e33f89695d4b5e905bede85b6, 0x5753cf9803bbe1bc27035017e009),
        (0x34270000000000000000000000000000, 0xfbd13fa770c54e7b4b2df66d33fede0f, 0x80000000000000000000000000000000),
        (0x2bbf6e26b2b46e67d849087054570931, 0x884b0000000000000000000000000000, 0xe3736e26b2b46e67d849087054570931),
        (0x8ece1e9d25471bddc3ef1ba1fa581f46, 0xf3e5ffffffffffffffffffffffffffff, 0x0),
        (0xe6cb173fb07d0bbaf6815438be1145a0, 0x8000c79db82ae71dfa0b190ca16d3325, 0x7fff0000000000000000000000000000),
        (0x8000cf7ee5e467d5244e7e4ea8e370be, 0xfa9a0000000000000000000000000000, 0x0),
        (0x8000876e64ebffe93fb4176104e3202f, 0xef9112ceab7b07607137316bcc2253c9, 0x0),
        (0x8001602f42f9571c36e60cb14197d7c2, 0x8aef5bc927f4f103a43ce56b0d10, 0xc000447733b23c5ef5ab23f3bc1e9650),
        (0x38fd94ce2ad6b7942290d4e00881d2d6, 0xe9256d156f651d9a17f8356b5f48ea88, 0x8fd71bda6816b29077a40dacfdac8753),
        (0x7ffdb58cfba8ca42588c780bd412cb46, 0x38b362f92967ab96381d6439a10f6b00, 0x7fff0000000000000000000000000000),
        (0x40007607e42cd735f81b14562ffd16ef, 0x470ce000000000000000000000000000, 0x38f28ef759c96e176f0bd16cfffce543),
        (0x7a9c6937c6eb12a6e04cf117ea77de5e, 0x800161bd5995e9b507e1d270621c91ac, 0xffff0000000000000000000000000000),
        (0xa7fe9531ae64dad6d1ea472c63fb, 0x2c3164d3dc5b43960277059c67db326b, 0x13cde2196c793dec35856a9ccc3335c4),
        (0x80006927ac571557416c38d4a17b04ce, 0x2ce6eb6564b3847c3510ed343d32, 0xc0002bc2959bcf7f9fd2f050ab3135c2),
        (0x6d46c000000000000000000000000000, 0x80005175ec619317245a4de82dac67ae, 0xffff0000000000000000000000000000),
        (0xaada0b753120ce02fb6cb318a51067b1, 0xfd62e77146ee8ff8bfdd2d299b895f80, 0x0),
        (0x3fff19ac0ddc4c210a569e7f4bc6e65e, 0x8002111344534a92ae6d840ab89b13d9, 0xfffc080f2c50b489fcce1a8dbefdf9b1),
        (0xe11ce000000000000000000000000000, 0x491835c812dee40db126f91a28fba275, 0xd8038caaa88a5372ec390e0f3a5737a2),
        (0x2854c06508f96db0e06463129365502f, 0xe5580de364c73ea1d059822267e0ecba, 0x82fba95212cf24eec0279fec316daaa3),
        (0x98c0bb2497bd24a5e8fa3e781d5ca518, 0x8a40786553c2c610c0afe17594035f9e, 0x4e7f2d65a6244e75be8b5882c65b08bd),
        (0x21a187fb05c2098d4e29061e0d1b3d36, 0x1d8e64273d1875145a85a2a6b5bac3f1, 0x441219c09a036ce28b03ca03644637bc),
        (0x2c11aa367710cb52d67a4ed72d398ec8, 0xe0ceb62155536268c990af300733, 0x6c0fe559c8974308b00d2cda8607759d),
        (0x3fff1f2fd74872602d28e10e99d2e1fd, 0x8478ae7aed8bf26624079966514ccca0, 0xfb8555924170458dcf49d4576aa8d1f9),
        (0x9358a000000000000000000000000000, 0xec17670a012fe5a33b4d34ba5f90de90, 0x0),
        (0x80002492290a7959d12a0286682cfe64, 0xd1c803d12546e07eff71b186e7a49d46, 0x0),
        (0xe837d532117d9916489199a7bbf8486f, 0x5cc482e9e89820bcbd0318d587c3f0c2, 0xcb72367105ae1ba2779dd06258346d41),
        (0x3fffdada5969df8f68fa8e5f743934f4, 0xcdfd7c38d28aeac413804bcf0582f752, 0xb2013fb6d3dba9bf405670207c054af7),
        (0xc000ee6ef7ef310b435bc2a24f966dd5, 0xfe9787a9a2c1363935891dfd6a1f8d77, 0x168432c678d4e1c8f896bbc8da1d331),
        (0xcaf03fffffffffffffffffffffffffff, 0x800000cee78c8201f4fa69074376dcf1, 0x7fff0000000000000000000000000000),
        (0x75d12232bc5824bcaea484da8abec3d2, 0xa2112a1976f59419e1e9f22061d32118, 0xffff0000000000000000000000000000),
        (0x455fd4abe5b112b581a59f329ed0, 0xd52e0a11f46305e654a82a1fe85d8c67, 0x80000000000000000000000000000000),
        (0x4bde494c62d0405b257665bb7444af32, 0xd96f3fffffffffffffffffffffffffff, 0xb26e07704f0d0048eac51e2f9036f28f),
        (0xbfffd33b9df392372478d1b07eabd349, 0x7ffe7d8de21fc421e3873053b1a30426, 0x80009cbe1c18e16c019d21c25516fcf9),
        (0xf44069fd27ed0e26688a47c1c336c2ab, 0xfffd72cde203f5833bf980a2d0c3a57b, 0x3441f3d3f36f9f40ea51e49460a2c7a2),
        (0x7377e20c1fb12249b7b8059aeed3e51e, 0x327e6b2f0554f1376895c4cb93a8cffa, 0x7fff0000000000000000000000000000),
        (0x800254584f24b7f6f9f57b346a64cec9, 0x583614a616596386d2b1f6acd725, 0xc001eddc94f8227c990e1a83fcb16df5),
        (0x78d6c000000000000000000000000000, 0xf2da731f9cc4badaffe6ae3829391fe8, 0xc5fb35077ab8fefb9b4dd8d3df3b0ec6),
        (0xc0350000000000000000000000000000, 0x6663c7a3a5bb05c0fcad7c40b1168dfc, 0x99d01faa8a82f18bc7cdea8a943b9dc4),
        (0x6e9fc000000000000000000000000000, 0xd56b097d1d16c9e8e86eaaa3723a3622, 0xd933affcfb8b2b909c063ad978a8ed37),
        (0xb401b494ec29bbc7d049ec2c526f, 0x40008579e1c00823da73c91bde6c1be8, 0x3b2898a2b8b89a48fdf291c6bec3),
        (0xfd320151a08fbf0e4d59c8b9eb713e49, 0xe3a95e2cde557e8f9170ac68a39ce236, 0x5987783b79862197544afbff8cd49bd5),
        (0x1c34e000000000000000000000000000, 0x3575de4a21afb2f9f718d171baa3, 0x5c351f50ba8ea3adc2b4c6b4f984d13c),
        (0xd544622aad27c81a065875b2ed83, 0x411b0000000000000000000000000000, 0x0),
        (0xfa177fffffffffffffffffffffffffff, 0xbd880000000000000000000000000000, 0x7c8e7fffffffffffffffffffffffffff),
        (0x30c3300c236e929b63ef314dd5fd936, 0x617b5e9bb37d404a789fc93f3bb1d25e, 0x0),
        (0xfffebc4dd292ffaa0158fc39ad01bfeb, 0xd3d01d303d5da65690f6393322dc, 0xffff0000000000000000000000000000),
        (0x1ef27fffffffffffffffffffffffffff, 0xa6bc57d4e3bcdc85bfab81f8f31ff61b, 0xb8351de84b989f7eedd6413731658069),
        (0xc6bf2000000000000000000000000000, 0x57884000000000000000000000000000, 0xaf35cccccccccccccccccccccccccccd),
        (0x7c32bfffffffffffffffffffffffffff, 0xdcfa81a5b6233ea4f5c8e8820b3b9b4c, 0xdf37296411e5a76eb65ad7d4a116b6a6),
        (0xa4fcffffffffffffffffffffffffffff, 0x2922cb4cc8b7f20cf502ab42719dd156, 0xbbd91d5f994df175b1755d3307840fa5),
        (0x690ab6177b079286a8e10db76a677fbf, 0x5f627fda0e4a510d3ac69c88c855bfc, 0x7fff0000000000000000000000000000),
        (0x382db72fbca7c22c04c63f9e9e816ede, 0x374b4c9895a087197d45a2fb8a80bfc, 0x74b80167fb3f99177a8122f9ddeb021a),
        (0x8000628452948fa021b73107f354de65, 0x800094a53737ec9364d79365c5762b5b, 0x3ffe5355e033f4daf03ac18f00cb7963),
        (0x1ce24379fb6c0c1010c68c259d5384ca, 0x3c5c4ca966e34fc8815932087a76628b, 0x2084f1dced6b625f6ed12c49180b23e2),
        (0x2741343855cd0d27e42963ab2479701a, 0x62e054e8db23e17986eee77349df01fa, 0x45fcee79db35336470cf4094d512a30),
        (0xb59004e7370968a8739f48cab8afc052, 0x800047ff170f0f768bd3476ddc3d6abd, 0x758fcfd9ccc24de8f3e4770d37833056),
        (0x8000481ad96b66d505809c1ac1edc43e, 0xff950000000000000000000000000000, 0x0),
        (0x9ebabdab64612ea0152f26bbc78c149f, 0x46ab2000000000000000000000000000, 0x980e8c26921d7ec72f465b5194ee4b38),
        (0x4424df453f5c35562d6c0595d957, 0xc637e000000000000000000000000000, 0x80000000000000000000000000000000),
        (0x7ffdcc42af1b1fb9b1f4cf352d6aa230, 0xa13b6000000000000000000000000000, 0xffff0000000000000000000000000000),
        (0xcff0cb3f978088251f94dd74d7a12894, 0xfc91bfa54d598d4aa24477a858462ee9, 0x135e06a2a6d64f398677138d5e48d1b3),
        (0xadd12d80303f505015db63d16283fa46, 0x31234000000000000000000000000000, 0xbcace266b398808022f89fb56a6cc3a3),
        (0x8da13fffffffffffffffffffffffffff, 0x2957fb9b8f69a63d5c38c55fd57ca, 0xcd9d940ba3251f0a8778d78e4c7f67b6),
        (0x34997fffffffffffffffffffffffffff, 0x2b8c4000000000000000000000000000, 0x490c3333333333333333333333333332),
        (0x1218429f40bfd0ae22c0c91a0a682a8e, 0xf6c28000000000000000000000000000, 0x80000000000000000000000000000000),
        (0x361d4ab26489277db30d4952b54a, 0xbfffe71d86cb0a7b82c027574443bbfa, 0x80001c707fb9d04cb19a1ab39f1144b6),
        (0xfffec9a60212ad46dd8783265ce2694f, 0xc0b13fffffffffffffffffffffffffff, 0x7f4c6e1e680ef1057e060285171b8774),
        (0x240b169acac9995484dc6b70ec2185e1, 0x89cfa11c67bea4d267c42f1d0744fb2f, 0xda3a55fc1832001b3e6b2e1453d917e5),
        (0x59600a9d7c13eff569d57d5aa2a1e277, 0x7ffe8f17170faf5b231bfdb92c692f9b, 0x1960560b9ff37d8ecf2d7aa5fd2fe63d),
        (0x3fffd97b0d70fd747fd6003f20f24746, 0xa602b17931dc8d18c93af3782665f43f, 0xd9fc17a09e7bd225ae8df8736d0ad910),
        (0xd8e2ee0b3b1fc767a3583790bdee14f1, 0xbfff12f8d9a6654e2bace7aa91f6aeac, 0x58e2cbf4e69bdc9b48aa9932f7e97f4a),
        (0x16f12873312f7c6ee5efb95d0a49, 0xa4a0469250ad9571e6b3d38cafde9cf9, 0x9b5c1fbfa8ffc104b3b010c8b29a2406),
        (0xb9e93b825b49debd8788de0d8b87fed9, 0x80009bf477d111c798b4ca4fcfe26619, 0x79e802f44177c38956b9e264d5e989bb),
        (0xc000d41cd08ddbf62e3a4af0ee3039f1, 0x272c6000000000000000000000000000, 0xd8d354720c0a1455f3131f3adbc5fb98),
        (0xc00098149b68251e29d01890b09f54ad, 0x3ffff393d1439034690270c394cff408, 0xbfffa23a57f39293ac23b913b4e48964),
        (0xbbd8a000000000000000000000000000, 0x2a71dd14896da55860911701733913cf, 0xd165be72f34f0839064ec62c6ea5d481),
        (0x10e6f00435246b310d0e6b588579f, 0x7f36cc611ac20942c207aaa1c4f5ad, 0x3f80bd81195290d4620aab2042bdcc06),
        (0x1cee65514ea1e4bdae561fa521ea256a, 0x99de334454d5705c25fb1f4ed7371dc8, 0xc30f29b32784ec9aee943db8a7a5f24a),
        (0x8000b2308bffd7cae0d29f3a1da3404d, 0x7a9b6d4ab5d1d96dcfd080d2de91d833, 0x80000000000000000000000000000000),
        (0xc35bfffffffffffffffffffffffffff, 0xdf203fffffffffffffffffffffffffff, 0x80000000000000000000000000000000),
        (0xe7e2f10db6d527825604137d9008f7f9, 0xbfff2f89b3134a86b641e2da4b8681e9, 0x67e2a3356b4d8d131b01228a7c331c04),
        (0x4000d5043a5de27359825600914c8f4a, 0x2455369a9b9445d769b4bd9f6f724874, 0x5baa82905317a2b3fbbcc5ad9ee2f89c),
        (0x7ffe617b1447b0189167f7a52b11e6b8, 0x114bc2fd7f3cfaa923719a0e7f95079e, 0x7fff0000000000000000000000000000),
        (0xdcd6ffffffffffffffffffffffffffff, 0x8000b042cb80ca48465dab3f700753ae, 0x7fff0000000000000000000000000000),
        (0xd0fb4000000000000000000000000000, 0x2554e000000000000000000000000000, 0xeba55555555555555555555555555555),
        (0xc0ebe558357bb8501a3b7f8c0245e1b7, 0x1565a6f91c2d200553abfd10860116a0, 0xeb8525bfeb0f5bb7143184838d527aa8),
        (0x8001f6786000ba57b27910c1123df80b, 0x800037ebbba393e3ac5268478f7dbf5d, 0x40021f88468756dd08d59401fb2d8579),
        (0x69bc3fffffffffffffffffffffffffff, 0xed42b53dbffa114635bbc064c262d1a2, 0xbc7876b68c4d86e8a1494e6a87136ae4),
        (0x443177876755e56cc8ac97b4826f3087, 0x96237fffffffffffffffffffffffffff, 0xee0cf4b489c7dc910b90ca46033eeb60),
        (0x7f88a000000000000000000000000000, 0x511ffe498207e648b93c2742e84987e4, 0x6e67a165787f9d33dee854e5d787395f),
        (0x5720aa385f775c05828daed8d2a177d3, 0xffa5c000000000000000000000000000, 0x9779e71bdad18dbd277d5a1c5e6f645f),
        (0x850ac8b76c01c781df63dc8c2002228d, 0x9bb8c000000000000000000000000000, 0x295104fb192596935b147e06edb813be),
        (0x7ffd19a3575f62f2928ef4da9b4a3129, 0x25f04666d52bfdd76b0bffd6080d1, 0x7fff0000000000000000000000000000),
        (0xceaf317a84a24a0ac7bb001742b30abc, 0x7ffe5a11070c73de9780f7f0e47c3317, 0x8eafc3f3675524b97156fcf8807fca93),
        (0x973aefc86e1709df3849cdd2b211, 0x117c899af126605bc873d15950b26, 0x3ffe14bfc89310e66461393f34da9aa8),
        (0x7ffe2c8b19b1e7754210477b8d2e7db4, 0xd9388000000000000000000000000000, 0xe6c490b97797df4702c05f4f66e8a79b),
        (0x5e5c269bf1f4ab821c9759fce585, 0x527db063e619e63ecf5e9b1dd881da4a, 0x0),
        (0x27f8a000000000000000000000000000, 0x91f12000000000000000000000000000, 0xd60671c71c71c71c71c71c71c71c71c7),
        (0x8000415d20a33cae009f9eb79a3a5544, 0x55e4c062095880abe2d8f209d0a02de4, 0x80000000000000000000000000000000),
        (0x80025b1107c19a03721728dca97757a8, 0x5c127378c9c1bbd843183ced49e25d80, 0x80000000000000000000000000000000),
        (0x4fdbe000000000000000000000000000, 0x8000bf7bb2151888abc4ad317f5cd2da, 0xffff0000000000000000000000000000),
        (0xc6c33d7b301b01f9fc761d6f31f77f87, 0x3fffa8a2d0a926dd3adb25ea17f10dc0, 0xc6c27ecca107ccaaa564933a0fc9ad24),
        (0x52694000000000000000000000000000, 0x3eb57fffffffffffffffffffffffffff, 0x53b2aaaaaaaaaaaaaaaaaaaaaaaaaaac),
        (0x7609c000000000000000000000000000, 0x80029517dc12aea7392ec4e9ccd501fe, 0xffff0000000000000000000000000000),
        (0x32113471b35edbcbeb053f0e6b8e75d8, 0xa0b5669625e6c28e99c51ea4cd34, 0x720feb55ab0dc657831eada63d62150e),
        (0xcc9affffffffffffffffffffffffffff, 0xf4ab7aff9866f49cf6688c5e945b0358, 0x17ee59d67d9ab71ff78584c05da5bc00),
        (0x43b650cee4ba1a1952de5a8c2a2ec71d, 0x93a161ad20c78c0b020b7e4377ec93cd, 0xf013e794b38370da60c2d3b8e98163c7),
        (0x3451e000000000000000000000000000, 0xf70d71fc1c72d7bdb9e46e7e9a35, 0x744ff162558d64850ff02eda7c45a445),
        (0x4b851b823ae689211c142ae87398ddbd, 0x8000086d7825482b046a822cf72bca56, 0xffff0000000000000000000000000000),
        (0xd2305523a3f9d75265d2a8c92e9591f0, 0x6b12bfffffffffffffffffffffffffff, 0xa71c85df96d463cbe215532f10aaefef),
        (0xd0cc000000000000000000000000000, 0x7cb0ffffffffffffffffffffffffffff, 0x0),
        (0x4ae4bfffffffffffffffffffffffffff, 0x2c6b56c3f6135f075d0dd111b03cd, 0x7fff0000000000000000000000000000),
        (0xfffe891c9775b61addf40f4b79acc7e4, 0x761a6ea8e5f8fcf093d144821355, 0xffff0000000000000000000000000000),
        (0xdbfcffffffffffffffffffffffffffff, 0xb7f0dec3bc0e1f21a24b1c540182f073, 0x640b11c573686d953c10879f761f216e),
        (0xb43c5b4df376593740f1956012c6, 0x9adcef1b8960de4c78b8e59d6a7, 0x400329f169a77058c6cafc69c8047f5e),
        (0xf730ba4277ba7cb6f78f6d219532b53a, 0x3636eb9f30d17bf5796992c33d6a5237, 0xffff0000000000000000000000000000),
        (0xc00059c5ae34af45ff5f53c008c09eca, 0x5fc1e000000000000000000000000000, 0xa03d70d2dbf3ee2887dd26222b7820d7),
        (0x7ffe097dc46c5506b4674970d0be80f1, 0x4b463663a0bee8f05f05d0e68d1d, 0x7fff0000000000000000000000000000),
        (0xc7340000000000000000000000000000, 0xb1d6bfffffffffffffffffffffffffff, 0x555c2492492492492492492492492493),
        (0x239f4000000000000000000000000000, 0xbf1e6000000000000000000000000000, 0xa47fd1745d1745d1745d1745d1745d17),
        (0x27694a935058d3b184d4eb2b5d71a, 0x6c59c017ee774b7f7b2f04e13848e1ca, 0x0),
        (0x2c45226c8994989a7e38bcf6f141a, 0xa276ea8197dde4425dd09441575a2ced, 0x9d8ad82433d88bd45e391518532de212),
        (0x78cd8000000000000000000000000000, 0xe544fdca6182b68bfc609d2f9f93, 0x7fff0000000000000000000000000000),
        (0xdc6012a42c76be4f451e79e6aaf20f98, 0xeba58f063eafe69514171a8ab67e6445, 0x30b960667f2fd3de78e6b83ebc76d5ed),
        (0x5afa7cc731fda768f44172c2e5b642d7, 0x8002c6a3543a7cd45198a5c183413de6, 0xffff0000000000000000000000000000),
        (0x42380000000000000000000000000000, 0x144024d1216e8ea27d6504b4879f7198, 0x6df6bf9fd975f51c74ffcb341630a81b),
        (0x741e7581c746c877407e4d52db7eb377, 0xbee5e6c19b92333e6a6cdcf7f0f9, 0x7fff0000000000000000000000000000),
        (0x1ea56000000000000000000000000000, 0x298f64292692832167867130c8a1, 0x5ea60f076f2e5b754347d66ce5cef2ee),
        (0x40009f7bd117491a6b728f5169dd8b80, 0x18b428e1df4f50e01ba68bf56e49a107, 0x674b6644f06a511af16f80561fa54587),
        (0x3c91b6f1c5a2ec75ce431cc492250059, 0x319c7cd08ff84236c0a60a75957a7fea, 0x4af42713c9d80ff2210ad1843821ffa6),
        (0x6ab89be8409a655a8bed50cd752c0f14, 0x80004afa8a8c2174d09699c0f99732ed, 0xffff0000000000000000000000000000),
        (0x800030e6b63919048bd473bca5af33bc, 0x8002a1b9a07cfa7d99e58afb37b1f1b9, 0x3ffadf801f8a7fd790d13161c2b9f255),
        (0xc1feffffffffffffffffffffffffffff, 0x40b6ce2fd69ece9ed17d5897f8eb9b9a, 0xc1471b9746a2b75061b13a802b8c816d),
        (0xfffe0105ebd15be4a95eb70c8844b06c, 0x3d32599594a02c11f11706a781896055, 0xffff0000000000000000000000000000),
        (0x9e1f7fffffffffffffffffffffffffff, 0x8000c0bafe2907e68ee3a6c9e0ebe65f, 0x5e1dfe0f3e0abb48be07985ffcc31d60),
        (0x64a4c000000000000000000000000000, 0x7825ccf6a5644bcf80cf855190ed12f, 0x7fff0000000000000000000000000000),
        (0x46eb27fc6693f8dc079fd26729e5b002, 0xc69011603bd9678970885fdef1ec1892, 0xc05a152c449f16486a48cd28b9bbbfd2),
        (0x889c079578bf25adadd31ff4c1310d4d, 0xe15db12f01e6fe5512afe5cb83ee, 0xc89a2b69b07e44701bdd4c2a187e6ba3),
        (0x2b6a5f4aa30569d19a619680191f95b0, 0x4000d7bdec16e55503cfa0f9957827a7, 0x2b687d4540d73e34915bd2ed5bcfc66d),
        (0xf70a2000000000000000000000000000, 0x800040d0b46c1410d945c36c664bae42, 0x7fff0000000000000000000000000000),
        (0xbef8ce5a795fdb4753e06c3079d12f7b, 0x20ffb832b3198a3be0629414607a1d09, 0xddf80ce274f6999d635497a49754d9c1),
        (0xc1713e56f24759283e8d7ecb6f1a6251, 0xd2a56000000000000000000000000000, 0x2ecacf0a1a96532343b689e215f7d4d3),
        (0xd9d40000000000000000000000000000, 0x9d7849e749e8d4120fb58685be74211, 0xffff0000000000000000000000000000),
        (0xe88a0681ce7a06053b823a2d59a36671, 0x51fcc000000000000000000000000000, 0xd68c2c02108b749844028ba18b03e2ca),
        (0x17b162acb67e069d9c86f543397ecf41, 0x4b7327fffc5a2cca9254bcdb2a18, 0x57b12cd9edf7b68c5f9eddaec06c2e23),
        (0xcd4064b28675b9a5a6e7919905a0b654, 0xfa634cf717a98c60226141980505baa, 0xfd9927b2a13377ec5b6788392b3e3cdb),
        (0x8000d7b5a6dfb8b9d14a722e392f680a, 0x2b3b7fffffffffffffffffffffffffff, 0x94c41f9cde7fa0f7c1b8983da1948ab9),
        (0x7ffd0debb0a3271133219104a72379b0, 0x22b1ec76998fe018eaaa1bb93c55f8, 0x7fff0000000000000000000000000000),
        (0x53a57fffffffffffffffffffffffffff, 0x3cfa3fffffffffffffffffffffffffff, 0x56aa3333333333333333333333333333),
        (0x401a0000000000000000000000000000, 0x9476af89637ad8aee6a7585b6f005615, 0xeba22fbbb0b8c71f6999640f3ef4e3b9),
        (0x5c19bfffffffffffffffffffffffffff, 0xe67607c0f093a0486eda0d0a5eb1, 0x7fff0000000000000000000000000000),
        (0xc0002df9c011a6441c9e3c82b4816775, 0xc21bffffffffffffffffffffffffffff, 0x3de32df9c011a6441c9e3c82b4816776),
        (0xc00016886cfa547f75b8c9e2ee208336, 0x9aa1f6e7b71ea56c4ffcb97f2c6dd11d, 0x655d1b91f0eb171a63808d42d4564ec4),
        (0xa654c427747187301ae0c725830a, 0xc15baaebf3810ffce3fcf0a596c7d7c9, 0x80000000000000000000000000000000),
        (0x19f3bc62be618b6fb081efdbfe8f0fc2, 0xe4151be16027df203b652d938f66fe58, 0x80000000000000000000000000000000),
        (0x8dffbfffffffffffffffffffffffffff, 0xe6ef51e0b560d8cbcfef717ac9768372, 0x0),
        (0xa146f60461e67d4476ec4c49000645b, 0x758141fe1a4eac64e24dd1e9c97dcedd, 0x0),
        (0x15fd765449a3315db88c0e98bb0bf3ef, 0xb65531f5bb94cfb6f8c04c823e74138b, 0x9fa7393494697e4b38bbd45525aafcd1),
        (0x3f0ce000000000000000000000000000, 0x3fffdc78280bf8b5756800cf82b0c270, 0x3f0c01e59f3466cca847e4f47ce30193),
        (0x3fff9de47b55c35a387d651e64ad4dbc, 0x9296772de1acd6bd2c4de0962f8e9acd, 0xed681a6a678a26b159c5b5ddc2d9b005),
        (0x80cff1b6dacdbdfaeedeee90c6d7af77, 0xc2eabc05f4cba4d56cfeafdcdf5d0f25, 0x0),
        (0x9d4fe000000000000000000000000000, 0x571442142ac83dbe0a8c70d7ec71c35d, 0x863a7d858569efb4f82e0283337cef46),
        (0xff9415c99443f3ad83bf378f32cf3549, 0x8000a2dcb7d1f0941a91796500798cbb, 0x7fff0000000000000000000000000000),
        (0x102264c2a054d178e0d1d69628336b8b, 0x7ffe7a241facfcfcb0aa1847165d885a, 0x0),
        (0x8512c000000000000000000000000000, 0xadf9db99bc668cfb7c0722e85a2553ad, 0x1717e2497f4451d2dc13d962bce6e299),
        (0xb4df73b5ea5d6cac3277c5f2bef9eaad, 0x52433fffffffffffffffffffffffffff, 0xa29b295e55178a235b9304c23261888b),
        (0x3519dff449510c19fdb374570a3d0c8f, 0x872b213ec79d5645981b65e5b1c11bf8, 0xededa8ca10f6f4823fd8dcb11794484d),
        (0xed49a000000000000000000000000000, 0xbf5f54fb8741e3d0535c23cabb0768d8, 0x6de938522bfc5a0a2129f50ef262051b),
        (0x3f2de1c6304563d59a9dceae6847b156, 0xb50aa000000000000000000000000000, 0xca222879f652160d4b74cdf52c7ae349),
        (0x27549e75e9ded111a22622e69a4eb10d, 0x7ffe187a1cbb0cc6ce611ab4a8bb3151, 0x0),
        (0xa10c920ba160024bc1868bd7a35ea2af, 0x80005d047b415a74abd9270230d00bf8, 0x610c149fd5c6e024b9604f0b40dc533f),
        (0xc9e3b6e99b886adbeec826965a8fc681, 0x890643d124cc1863d03e068c65a0458e, 0x7fff0000000000000000000000000000),
        (0xc000255db3e9acd2ac4200ea35e546b6, 0x526f2000000000000000000000000000, 0xad9004c511b344497cac72974c5a05f7),
        (0xa266a8678d88d7f84645a51aa7ecbb6a, 0x400031454779a0b7e889a255cafae9f2, 0xa26563e7dba2337585c1becc63277ae5),
        (0x1c000000000000000000000000000000, 0x94b5cfb774c8e55b7b92217d8e9cd14a, 0xc7491aa7c71dc2bab311167e95328fe5),
        (0xc00045cd9a1097e7e29ecc9953444434, 0x3fff82ab2c0d3ee6dd5505510342a901, 0xbfffaf67f506d96de314abbfb5be73d3),
        (0x40000ef0770af82a5ef3367183fbc8f3, 0xe5e20031b1b5226cdbc920d89861e336, 0x9a1d0ebbe923dcd76300a06853b96ca7),
        (0xb691298f549c32c958ad1343310d36aa, 0x342c839c19029e39ff9adcb221e36e7d, 0xc263890d3a0db2f288c4bab821ce8d27),
        (0xd0c06000000000000000000000000000, 0xfd6a1b48fe63900d9b838c3974a05b96, 0x13553e18b22b202839587ab161381b50),
        (0xda1e3fffffffffffffffffffffffffff, 0xa7ae0f3065bcc2a752e39e1c506f, 0xffff0000000000000000000000000000),
        (0x4f287fffffffffffffffffffffffffff, 0x3fff75d36336aaec54d2a5fbcbf2bbb7, 0x4f2806f7aadd290ea929541bbd378474),
        (0x9caa6000000000000000000000000000, 0xaf946fb38b156d77d02eab1967ef57a7, 0x2d14ea230cb29e2b4a939830c3db17ac),
        (0x65eebfffffffffffffffffffffffffff, 0x80002158a0ae57b225cf435cea87889f, 0xffff0000000000000000000000000000),
        (0x475f8e49089f5c3e587a8b3e5535, 0x9bd368e8990e49253c054943c5672ae9, 0xa42a95032b909061bcaf86ae9000ce05),
        (0x20792b9ec26c261c69e382df5b98f, 0x68aeab328c4c76161cad637f40a340a3, 0x0),
        (0x2ba707088e2179d3883969205c96c595, 0x27d11f8f000dc26bc231d814b569846b, 0x43d4d4552fca8e45ff1633ba62f1bf72),
        (0x205c000000000000000000000000000, 0x8663a000000000000000000000000000, 0xbba113b13b13b13b13b13b13b13b13b1),
        (0x57fb6000000000000000000000000000, 0xfffdb466f71a16b484ef3dfc0147154d, 0x97fc9cfa11766ad460968e4bf8125acd),
        (0x5e0b7fffffffffffffffffffffffffff, 0xdda67e9c83eaf5b3d627fa3c1bc5fe01, 0xc06400edd9935c6361d7185475a8b29a),
        (0x4168b3e313c7fcc2d56b8dc5ebe2c922, 0xfffd8e7e8123cc432d595ff2bc53dafe, 0x816a180598efbfffca016436383faf7b),
        (0xf75b18a928b6f8b051a0b7a6d0c2257e, 0x1b21881e708a858d62ce06ec09e4b1f2, 0xffff0000000000000000000000000000),
        (0xb2713fffffffffffffffffffffffffff, 0xc0004c83e52b0116ecd5738e56fafc5c, 0x326fecbab57df2b13342a86cc7b936fa),
        (0x598b98889dffbc66ac6b0b61d0f8, 0xa2fb4000000000000000000000000000, 0x9d031e8b81b52ccbf47bc1568ad29cb3),
        (0x1e30673b0df2f92aaafbd18dc27cc37b, 0x7ffd739a0ee6400cc59768f201161d76, 0x0),
        (0x156dafc2110a8a9445b272293e798d27, 0x8002b0846c781224a9437137af0c8a91, 0xd569ff19ed2146dd8208ba22c7a3a7a1),
        (0xf0c78000000000000000000000000000, 0x820ae000000000000000000000000000, 0x7fff0000000000000000000000000000),
        (0xdfed2d9ea5f29aabe645e7430c4b6740, 0x6936fcdc64714c581fb10ec8374bed8a, 0xb6b52f7af985414bd9c2918bb0c44633),
        (0xcd801bbec88ae7926db70ceeb31cad87, 0xa9cdc0e9e21b0223757d4b0e4fea8732, 0x63b1439ecd8def73ecfb38a609d79572),
        (0x17a23fffffffffffffffffffffffffff, 0x8000dcc62af14c062588e1014b902af4, 0xd7a0730edb130e21089d6a5dc60e277a),
        (0xea9c3fffffffffffffffffffffffffff, 0xdca935b342e62efe8432e6db3816778f, 0x4df208838b19abddb780794141fa3582),
        (0xd686c000000000000000000000000000, 0x57863ecfa4e80deeaf953fc64dde65b7, 0xbeff67bc8cba3a9d9d081201c2b78073),
        (0xe7fffffffffffffffffffffffffff, 0xc48c764fc8b1e141a03945e020e5d965, 0x80000000000000000000000000000000),
        (0x800018a8ffd1bd18802b27118a1f63da, 0x31fc4009d59fd3630612a2456ba1fed2, 0x8e003b9cb0fc252f013c39e6cd3bc71e),
        (0x2fa3de993221432d5d48c388a87f87ea, 0xc148f5e77f62ceb736a9275c7f796485, 0xae59e839afe961b018f3322530a3bf1b),
        (0x7ffd18d6423b1c073519721340718dbd, 0x65f8c000000000000000000000000000, 0x5a0340f4ddfa692ccef8825f25140fb3),
        (0x97ac8000000000000000000000000000, 0x32e7d526c0aa61a54f8896c39c2b47a6, 0xa4c3a31251d09f33519218d4bad73ba0),
        (0xcc17ffffffffffffffffffffffffffff, 0x8ea63fffffffffffffffffffffffffff, 0x7d70999999999999999999999999999a),
        (0x74ae1b0f910a6e47531e196940df62b, 0xb152a78c0640341943f639eeb36f819d, 0x95f72324c05e270231fb4578504e68f4),
        (0xd58dcb9dcee2a4e38527d4933c3edd7a, 0xc3798000000000000000000000000000, 0x5213326934971897ae1a8db77d7f3e51),
        (0x9aabe000000000000000000000000000, 0x6c5abfffffffffffffffffffffffffff, 0x80000000000000000000000000000000),
        (0x8de86000000000000000000000000000, 0xc0003d33844164c81cbef437fb843298, 0xde71c15ab23aaa60f7fa331f470c030),
        (0x4786626c336b0c1a01339f8b9a45b670, 0xf4cbfffffffffffffffffffffffffff, 0x7838950df19ee9424a84240d4298d081),
        (0x8000abc4a6b4436deb41f453292346f8, 0x8000893b4cab2723dcdd53a9e356dd72, 0x3fff406d2ded63587a44dc8b2398854e),
        (0xda25b842a09259c9078a8ad908420088, 0x40004b2dc4dca26b28ce3005c0edc5d8, 0xda245451d06cdf66234e508ef64b0f03),
        (0x800021f2b97516fa16a0bad740553134, 0xb64fae49c7fcd37b1a8614999fa91ce, 0xb498125245fdfbfae8b179ff0f00fb74),
        (0x586f3aebefa368440621660d3d17b43f, 0xb0434105b4f65d38e529d76a70c223f2, 0xe82af6451fcdefe848751828a8c08df9),
        (0x80000de6d12a728b8bcedd1443f20298, 0x90e4a000000000000000000000000000, 0x2f1711c15208cfa84afd5053feec81d9),
        (0xa49778cccf4f0607f384feba70db747b, 0xfffe73c2c280f16351c4e1b286c14b4a, 0x0),
        (0x18ac166b8d65f046212e048710b0, 0x800051257fb984ee8df6b9c34668d764, 0xbffd3757aff2432d6c32683789b03fec),
        (0x4f2d342e3eeabe0be6b59509dd2700ba, 0xaf0552c51100464db70dbb42c0e00f9, 0x7fff0000000000000000000000000000),
        (0xbfff5944de98409182b0aafdfa4a2b9b, 0xef895fb9367f2d50cbe937088a80d2aa, 0x1074f69ab3b5d681963fb37b0b2e0b3c),
        (0x2c3430fd50e6697b19b2782af282d5f, 0x7ffea64f34d537fa9a5cea67499a4a30, 0x0),
        (0xfb83bfffffffffffffffffffffffffff, 0x803779682ad054c3846aebb8a69604c7, 0x7fff0000000000000000000000000000),
        (0x1897ca895de53103b205f4e75f7e721e, 0x43e07fffffffffffffffffffffffffff, 0x14b631b0e943760276aea344ea544c15),
        (0xace33f58bc333aae2f2c1bdc942f5832, 0x3fff5e8a813cfbee9c6102c6f67f5388, 0xace2d26ffd7b13c1a213fa417f3b4cf3),
        (0x83ea3fffffffffffffffffffffffffff, 0xbc53cf1906b0f9553a85e2b989603890, 0x79561ca9896447fbf55f6f0ee09089d),
        (0x5971e000000000000000000000000000, 0xa21e7b7eecc238ff834dd66af11f1d04, 0xf75243cc4cfe0b87b4c7353f57ae019a),
        (0x8000b5a3dc19d0109623b90452a7ce6b, 0xf587dc6e78011160039a94d26b909bc1, 0x0),
        (0x8000c117b0ec6076ac75a7f4f4222a06, 0x7ffe8daa70c01b8ecff305058ab7a67d, 0x80000000000000000000000000000000),
        (0x800084faaf53a793af97ec1d1ee2e39f, 0xc95416a1d674b311d17739f8ab32ef32, 0x0),
        (0xa3ab7ed66a890f4e5f3e7ec73bea, 0x3ac55a718599ca39048718bb7083, 0x40006476ee2c536899e7efbe47c96273),
        (0xc51b1cac43ec10d93e1b0e8243ad311a, 0xe41c000000000000000000000000000, 0xf6d84557290dca1cd9437e4bbb0f138b),
        (0x8c4e77108d62a7a85b66d5df02dce699, 0xf2759a80937e230843e10e7a3d1635fc, 0x0),
        (0xbfffc4318e1a757e75ccaec50a069b3d, 0x2254e000000000000000000000000000, 0xdda9e256fdfa16ed4a73ed9ef9a0a596),
        (0xa91aa32af87daae50320f997f280eacf, 0xb5ba2a7cd0a21f4f33f0e56fdb08120c, 0x335f6780983da85dd4e0d5c612e27144),
        (0x8000e09ed561c013c34fd3cacfaf1cdd, 0x2d03fee65dec766aebc92727aa4f4224, 0x92fbc2354f89b359d4dadb595e765347),
        (0x852de51303a14e6891a0aca951728849, 0x510621453e8d0d384d53d422e99e294, 0xc01c5eb5a25759234cd1a2dddde2bc72),
        (0x80012d5a535d6e3fdf5e6f3f680e3a34, 0x7f673fffffffffffffffffffffffffff, 0x80000000000000000000000000000000),
        (0xfa3f0000000000000000000000000000, 0x3d75e8afc58efd30d5f132a5fa0834d6, 0xfcc80c367996a32228eef94aa67b4c9e),
        (0x392a2935772dd74de2a0da17ef2659d, 0x74bd1f2eb7e4a6932c945d61d5e9e711, 0x0),
        (0x2fcefdcb23f07d7928a6e6239ad16916, 0xbffff715e5a618799a349c5ba21fc002, 0xafce0369d6092285f718a2d8315d9537),
        (0x6772e000000000000000000000000000, 0x8000ee571eb4b45b8b402b703544500a, 0xffff0000000000000000000000000000),
        (0x33e6521fc9651806650d02bacab7ad07, 0x44b5a000000000000000000000000000, 0x2f2fa0271f4158a568ad8d34aabaad92),
        (0x3fffe9477edd4004bcd9c09e622a1daa, 0xf3521f4384ec6f809f5d6b7e11fdae42, 0x8cacb407939b35dd5e65f97e59210e99),
        (0x900cc000000000000000000000000000, 0x25bc8e51b5b64c0867481eb8dc6595bb, 0xaa4f1fee0db3a99f2814edeca71842ab),
        (0x1225845225eb5bb95a28116cdd9249cc, 0x80003b957b04347fcc43a10463cf423b, 0xd225a119fb57b6fccd7c828eb8f2998d),
        (0x9879e000000000000000000000000000, 0xa412e5a82bff8deeb2bf0384ee739726, 0x3465fa0946b2e0d3286dabefb8573dd6),
        (0x8fc1bfffffffffffffffffffffffffff, 0xab445eb559f58a9a123cc1e796be5664, 0x247c4704a2f797fd35926d46bac3bf55),
        (0x3ce6a000000000000000000000000000, 0xfffd9241c4b752dea61de4c4858ee3bb, 0x80000000000000000000000000000000),
        (0xa3dd08e05bc167df48204c4c735717f4, 0xbfff9bbc87c3b6b9e041b8773cb0dc7b, 0x23dc4960a31b90fd2ab1f601aede551a),
        (0x7ffdabb719e1e61f39921d4ae285d1fa, 0x1e78d61be43935b92ebfc828b5bdcca5, 0x7fff0000000000000000000000000000),
        (0x95d1e000000000000000000000000000, 0x8000fcf9dd1752dd786bbaea94e8e796, 0x55cfe5bcdb3b665e36c30843633512ee),
        (0x9c76e000000000000000000000000000, 0x71ffffffffffffffffffffffffffff, 0xdc03e000000000000000000000000001),
        (0xa15d7917bac9a56d350562f0d11b, 0xe7e28cd6c92a46d91cb1223ecd6e50d7, 0x80000000000000000000000000000000),
        (0xbc2b6d21d4482f977ce81fd75c92fcc0, 0xc85033e8a68514949b03f390ad36, 0xfc29d2a35f7fa3f42cbc0620d009cf8c),
        (0x7e60a1e11ec68bef71ef63ad8b71c050, 0x3c86b4f49e41e65f1900a402c7a97cb7, 0x7fff0000000000000000000000000000),
        (0x73f5aff3fb185a7c76eecc96d7c3b38e, 0x7110c000000000000000000000000000, 0x42e3eda91ef742d7635a0e633fbb1659),
        (0xda063e5d1cbfc35787ad7b095799, 0xbabd6000000000000000000000000000, 0x85423d205ab5fb4579397f87f8c7c53c),
        (0x27fcc76ecf9e6c8206f43bf53815e8a1, 0x12fbc8f927f2084f2bf2bfd004734d6, 0x66cc0642b9cfc37f3353cb5d8a643c3a),
        (0x7c567fffffffffffffffffffffffffff, 0xb7298000000000000000000000000000, 0xffff0000000000000000000000000000),
        (0x80013fb0e32912665bc936c86daf6e72, 0x3a23c000000000000000000000000000, 0x85dc6d5c715382be1fc1632e34363515),
        (0x4000177e7f80542b63d9c0ca0bd4c298, 0xeebcc000000000000000000000000000, 0x91423f6bff6e170d046693300d8570ae),
        (0x3c226000000000000000000000000000, 0xc0001ef6db2d822c2b470fd177997ac1, 0xbc213a04a718bae5722ae6ced9c34261),
        (0x7ffe6da6fca968dfc5070843b7d2ef27, 0xcc9aa000000000000000000000000000, 0xf362c208996e0aec06300a2bf5efeb44),
        (0x48a85fbba6171d12b6c0b323465d43c7, 0x6797285d8669e8da92de3c448eb63e0d, 0x21102fd39717282889982c07d8196409),
        (0xe72e8beb50bb4ca6373ca3ee61d488a1, 0xbebe4000000000000000000000000000, 0x686f3cbc4095d6eb5f63b6584e43a081),
        (0x29e0e4f25c91249d38e3ff0e4b5ea, 0xbd917e2245c638365e5734ecad89321e, 0x82701562a122dd07a7895bf11cbeb057),
        (0x1d26d7ea5fdb89335511cba4f32e67c5, 0x69586000000000000000000000000000, 0x0),
        (0x4cf9bfffffffffffffffffffffffffff, 0x6cd5285c902b49ef19f769d63912951e, 0x202382fc9b0e7c0187c0d43044057e07),
        (0xc2ba24830707177d172e38c5cbee2fc2, 0xbe43fffffffffffffffffffffffffff, 0xf6d4d404d80b58c82516c13c797d1938),
        (0xfffe34c37b0eb51066a1eddf69de0b0e, 0x9aa352b400a48755c5d733ab8244, 0xffff0000000000000000000000000000),
    ]
}

#[test]
fn mul_f16() {
    for (a, b, want) in f16_products() {
        assert_eq!(mul(F16::from_bits(a), F16::from_bits(b)).to_bits(), want, "{a:#x} * {b:#x}");
        assert_eq!(mul(F16::from_bits(b), F16::from_bits(a)).to_bits(), want, "{b:#x} * {a:#x}");
    }
    assert_eq!(mul(F16::from_bits(0x7c00), F16::from_bits(0)).to_bits(), 0x7e00);
    assert_eq!(mul(F16::from_bits(0x7c01), F16::from_bits(0x3c00)).to_bits(), 0x7e01);
    assert_eq!(mul(F16::from_bits(0xfc00), F16::from_bits(0x3c00)).to_bits(), 0xfc00);
}

#[test]
fn div_f16() {
    for (a, b, want) in f16_quotients() {
        assert_eq!(div(F16::from_bits(a), F16::from_bits(b)).to_bits(), want, "{a:#x} / {b:#x}");
    }
    // 1 / 3
    assert_eq!(div(F16::from_bits(0x3c00), F16::from_bits(0x4200)).to_bits(), 0x3555);
    assert_eq!(div(F16::from_bits(0x3c00), F16::from_bits(0)).to_bits(), 0x7c00);
    assert_eq!(div(F16::from_bits(0), F16::from_bits(0x8000)).to_bits(), 0x7e00);
}

#[test]
fn div_f16_every_divisor() {
    // x * d / d == x wherever x * d is exact: small whole numbers
    for d in 1u16..=64 {
        for x in 0u16..=31 {
            let pattern = |n: u16| softfp::float::conv::uint_to_float::<F16>(n as u128) as u16;
            let q = div(F16::from_bits(pattern(x * d)), F16::from_bits(pattern(d)));
            assert_eq!(q.to_bits(), pattern(x), "{} / {d}", x * d);
        }
    }
}

#[test]
fn div_f128() {
    for (a, b, want) in f128_quotients() {
        assert_eq!(div(F128::from_bits(a), F128::from_bits(b)).to_bits(), want, "{a:#x} / {b:#x}");
    }
    let one = 0x3fff_0000_0000_0000_0000_0000_0000_0000u128;
    let three = 0x4000_8000_0000_0000_0000_0000_0000_0000u128;
    let inf = 0x7fff_0000_0000_0000_0000_0000_0000_0000u128;
    assert_eq!(
        div(F128::from_bits(one), F128::from_bits(three)).to_bits(),
        0x3ffd_5555_5555_5555_5555_5555_5555_5555
    );
    assert_eq!(div(F128::from_bits(three), F128::from_bits(three)).to_bits(), one);
    assert_eq!(div(F128::from_bits(one), F128::from_bits(0)).to_bits(), inf);
    assert_eq!(div(F128::from_bits(inf), F128::from_bits(inf)).to_bits(), inf | 1 << 111);
    assert_eq!(div(F128::from_bits(one), F128::from_bits(inf | 1 << 127)).to_bits(), 1 << 127);
}

#[test]
fn div_f128_by_powers_and_neighbours() {
    // divisors whose significand is all zeros or all ones, where the
    // reciprocal estimate is closest to wrapping
    let one = 0x3fff_0000_0000_0000_0000_0000_0000_0000u128;
    let ones = (1u128 << 112) - 1;
    for e in [1u128, 0x3ffe, 0x3fff, 0x4000, 0x7ffe] {
        for f in [0u128, 1, 2, ones, ones - 1, 1 << 111, (1 << 111) - 1, 1 << 64, (1 << 64) - 1] {
            let b = (e << 112) | f;
            // b / b == 1 and (b * 1) / 1 == b
            assert_eq!(div(F128::from_bits(b), F128::from_bits(b)).to_bits(), one, "{b:#x}");
            assert_eq!(div(F128::from_bits(b), F128::from_bits(one)).to_bits(), b, "{b:#x}");
            // x / b * b stays within one unit of x for x = 1
            let q = div(F128::from_bits(one), F128::from_bits(b));
            let back = mul(q, F128::from_bits(b)).to_bits();
            if q.to_bits() >> 112 != 0 && q.to_bits() >> 112 != 0x7fff {
                assert!(back.abs_diff(one) <= 1, "{b:#x}: {back:#x}");
            }
        }
    }
}

#[test]
fn mul_f128() {
    for (a, b, want) in f128_products() {
        assert_eq!(mul(F128::from_bits(a), F128::from_bits(b)).to_bits(), want, "{a:#x} * {b:#x}");
        assert_eq!(mul(F128::from_bits(b), F128::from_bits(a)).to_bits(), want, "{b:#x} * {a:#x}");
    }
    let one = 0x3fff_0000_0000_0000_0000_0000_0000_0000u128;
    let inf = 0x7fff_0000_0000_0000_0000_0000_0000_0000u128;
    assert_eq!(mul(F128::from_bits(one), F128::from_bits(one)).to_bits(), one);
    assert_eq!(mul(F128::from_bits(inf), F128::from_bits(0)).to_bits(), inf | 1 << 111);
    assert_eq!(mul(F128::from_bits(inf | 1 << 127), F128::from_bits(one)).to_bits(), inf | 1 << 127);
    assert_eq!(mul(F128::from_bits(inf | 5), F128::from_bits(one)).to_bits(), inf | 1 << 111 | 5);
}
