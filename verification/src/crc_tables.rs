//! Lookup tables of the page checksum, with the proof that each entry is what
//! the bitwise definition gives.
use vstd::prelude::*;

verus! {

/// One bit shifted out of the register, the generator polynomial
/// `0x04C1_1DB7` folded in when that bit was set.
pub open spec fn shift_bit(r: u32) -> u32 {
    if r & 0x8000_0000 != 0 {
        (r << 1) ^ 0x04C1_1DB7
    } else {
        r << 1
    }
}

/// Eight bits shifted out of the register.
#[verifier::opaque]
pub open spec fn shift_byte(r: u32) -> u32 {
    shift_bit(shift_bit(shift_bit(shift_bit(shift_bit(shift_bit(shift_bit(shift_bit(r))))))))
}

/// Single-byte advancement table: entry `i` is the register once the byte `i`,
/// placed in the top of an empty register, has been shifted out.
pub const T0: [u32; 256] = [
    0x00000000, 0x04C11DB7, 0x09823B6E, 0x0D4326D9, 0x130476DC, 0x17C56B6B, 0x1A864DB2, 0x1E475005,
    0x2608EDB8, 0x22C9F00F, 0x2F8AD6D6, 0x2B4BCB61, 0x350C9B64, 0x31CD86D3, 0x3C8EA00A, 0x384FBDBD,
    0x4C11DB70, 0x48D0C6C7, 0x4593E01E, 0x4152FDA9, 0x5F15ADAC, 0x5BD4B01B, 0x569796C2, 0x52568B75,
    0x6A1936C8, 0x6ED82B7F, 0x639B0DA6, 0x675A1011, 0x791D4014, 0x7DDC5DA3, 0x709F7B7A, 0x745E66CD,
    0x9823B6E0, 0x9CE2AB57, 0x91A18D8E, 0x95609039, 0x8B27C03C, 0x8FE6DD8B, 0x82A5FB52, 0x8664E6E5,
    0xBE2B5B58, 0xBAEA46EF, 0xB7A96036, 0xB3687D81, 0xAD2F2D84, 0xA9EE3033, 0xA4AD16EA, 0xA06C0B5D,
    0xD4326D90, 0xD0F37027, 0xDDB056FE, 0xD9714B49, 0xC7361B4C, 0xC3F706FB, 0xCEB42022, 0xCA753D95,
    0xF23A8028, 0xF6FB9D9F, 0xFBB8BB46, 0xFF79A6F1, 0xE13EF6F4, 0xE5FFEB43, 0xE8BCCD9A, 0xEC7DD02D,
    0x34867077, 0x30476DC0, 0x3D044B19, 0x39C556AE, 0x278206AB, 0x23431B1C, 0x2E003DC5, 0x2AC12072,
    0x128E9DCF, 0x164F8078, 0x1B0CA6A1, 0x1FCDBB16, 0x018AEB13, 0x054BF6A4, 0x0808D07D, 0x0CC9CDCA,
    0x7897AB07, 0x7C56B6B0, 0x71159069, 0x75D48DDE, 0x6B93DDDB, 0x6F52C06C, 0x6211E6B5, 0x66D0FB02,
    0x5E9F46BF, 0x5A5E5B08, 0x571D7DD1, 0x53DC6066, 0x4D9B3063, 0x495A2DD4, 0x44190B0D, 0x40D816BA,
    0xACA5C697, 0xA864DB20, 0xA527FDF9, 0xA1E6E04E, 0xBFA1B04B, 0xBB60ADFC, 0xB6238B25, 0xB2E29692,
    0x8AAD2B2F, 0x8E6C3698, 0x832F1041, 0x87EE0DF6, 0x99A95DF3, 0x9D684044, 0x902B669D, 0x94EA7B2A,
    0xE0B41DE7, 0xE4750050, 0xE9362689, 0xEDF73B3E, 0xF3B06B3B, 0xF771768C, 0xFA325055, 0xFEF34DE2,
    0xC6BCF05F, 0xC27DEDE8, 0xCF3ECB31, 0xCBFFD686, 0xD5B88683, 0xD1799B34, 0xDC3ABDED, 0xD8FBA05A,
    0x690CE0EE, 0x6DCDFD59, 0x608EDB80, 0x644FC637, 0x7A089632, 0x7EC98B85, 0x738AAD5C, 0x774BB0EB,
    0x4F040D56, 0x4BC510E1, 0x46863638, 0x42472B8F, 0x5C007B8A, 0x58C1663D, 0x558240E4, 0x51435D53,
    0x251D3B9E, 0x21DC2629, 0x2C9F00F0, 0x285E1D47, 0x36194D42, 0x32D850F5, 0x3F9B762C, 0x3B5A6B9B,
    0x0315D626, 0x07D4CB91, 0x0A97ED48, 0x0E56F0FF, 0x1011A0FA, 0x14D0BD4D, 0x19939B94, 0x1D528623,
    0xF12F560E, 0xF5EE4BB9, 0xF8AD6D60, 0xFC6C70D7, 0xE22B20D2, 0xE6EA3D65, 0xEBA91BBC, 0xEF68060B,
    0xD727BBB6, 0xD3E6A601, 0xDEA580D8, 0xDA649D6F, 0xC423CD6A, 0xC0E2D0DD, 0xCDA1F604, 0xC960EBB3,
    0xBD3E8D7E, 0xB9FF90C9, 0xB4BCB610, 0xB07DABA7, 0xAE3AFBA2, 0xAAFBE615, 0xA7B8C0CC, 0xA379DD7B,
    0x9B3660C6, 0x9FF77D71, 0x92B45BA8, 0x9675461F, 0x8832161A, 0x8CF30BAD, 0x81B02D74, 0x857130C3,
    0x5D8A9099, 0x594B8D2E, 0x5408ABF7, 0x50C9B640, 0x4E8EE645, 0x4A4FFBF2, 0x470CDD2B, 0x43CDC09C,
    0x7B827D21, 0x7F436096, 0x7200464F, 0x76C15BF8, 0x68860BFD, 0x6C47164A, 0x61043093, 0x65C52D24,
    0x119B4BE9, 0x155A565E, 0x18197087, 0x1CD86D30, 0x029F3D35, 0x065E2082, 0x0B1D065B, 0x0FDC1BEC,
    0x3793A651, 0x3352BBE6, 0x3E119D3F, 0x3AD08088, 0x2497D08D, 0x2056CD3A, 0x2D15EBE3, 0x29D4F654,
    0xC5A92679, 0xC1683BCE, 0xCC2B1D17, 0xC8EA00A0, 0xD6AD50A5, 0xD26C4D12, 0xDF2F6BCB, 0xDBEE767C,
    0xE3A1CBC1, 0xE760D676, 0xEA23F0AF, 0xEEE2ED18, 0xF0A5BD1D, 0xF464A0AA, 0xF9278673, 0xFDE69BC4,
    0x89B8FD09, 0x8D79E0BE, 0x803AC667, 0x84FBDBD0, 0x9ABC8BD5, 0x9E7D9662, 0x933EB0BB, 0x97FFAD0C,
    0xAFB010B1, 0xAB710D06, 0xA6322BDF, 0xA2F33668, 0xBCB4666D, 0xB8757BDA, 0xB5365D03, 0xB1F740B4,
];

/// Entry `i` is `T0[i]` advanced by one zero byte.
pub const T1: [u32; 256] = [
    0x00000000, 0xD219C1DC, 0xA0F29E0F, 0x72EB5FD3, 0x452421A9, 0x973DE075, 0xE5D6BFA6, 0x37CF7E7A,
    0x8A484352, 0x5851828E, 0x2ABADD5D, 0xF8A31C81, 0xCF6C62FB, 0x1D75A327, 0x6F9EFCF4, 0xBD873D28,
    0x10519B13, 0xC2485ACF, 0xB0A3051C, 0x62BAC4C0, 0x5575BABA, 0x876C7B66, 0xF58724B5, 0x279EE569,
    0x9A19D841, 0x4800199D, 0x3AEB464E, 0xE8F28792, 0xDF3DF9E8, 0x0D243834, 0x7FCF67E7, 0xADD6A63B,
    0x20A33626, 0xF2BAF7FA, 0x8051A829, 0x524869F5, 0x6587178F, 0xB79ED653, 0xC5758980, 0x176C485C,
    0xAAEB7574, 0x78F2B4A8, 0x0A19EB7B, 0xD8002AA7, 0xEFCF54DD, 0x3DD69501, 0x4F3DCAD2, 0x9D240B0E,
    0x30F2AD35, 0xE2EB6CE9, 0x9000333A, 0x4219F2E6, 0x75D68C9C, 0xA7CF4D40, 0xD5241293, 0x073DD34F,
    0xBABAEE67, 0x68A32FBB, 0x1A487068, 0xC851B1B4, 0xFF9ECFCE, 0x2D870E12, 0x5F6C51C1, 0x8D75901D,
    0x41466C4C, 0x935FAD90, 0xE1B4F243, 0x33AD339F, 0x04624DE5, 0xD67B8C39, 0xA490D3EA, 0x76891236,
    0xCB0E2F1E, 0x1917EEC2, 0x6BFCB111, 0xB9E570CD, 0x8E2A0EB7, 0x5C33CF6B, 0x2ED890B8, 0xFCC15164,
    0x5117F75F, 0x830E3683, 0xF1E56950, 0x23FCA88C, 0x1433D6F6, 0xC62A172A, 0xB4C148F9, 0x66D88925,
    0xDB5FB40D, 0x094675D1, 0x7BAD2A02, 0xA9B4EBDE, 0x9E7B95A4, 0x4C625478, 0x3E890BAB, 0xEC90CA77,
    0x61E55A6A, 0xB3FC9BB6, 0xC117C465, 0x130E05B9, 0x24C17BC3, 0xF6D8BA1F, 0x8433E5CC, 0x562A2410,
    0xEBAD1938, 0x39B4D8E4, 0x4B5F8737, 0x994646EB, 0xAE893891, 0x7C90F94D, 0x0E7BA69E, 0xDC626742,
    0x71B4C179, 0xA3AD00A5, 0xD1465F76, 0x035F9EAA, 0x3490E0D0, 0xE689210C, 0x94627EDF, 0x467BBF03,
    0xFBFC822B, 0x29E543F7, 0x5B0E1C24, 0x8917DDF8, 0xBED8A382, 0x6CC1625E, 0x1E2A3D8D, 0xCC33FC51,
    0x828CD898, 0x50951944, 0x227E4697, 0xF067874B, 0xC7A8F931, 0x15B138ED, 0x675A673E, 0xB543A6E2,
    0x08C49BCA, 0xDADD5A16, 0xA83605C5, 0x7A2FC419, 0x4DE0BA63, 0x9FF97BBF, 0xED12246C, 0x3F0BE5B0,
    0x92DD438B, 0x40C48257, 0x322FDD84, 0xE0361C58, 0xD7F96222, 0x05E0A3FE, 0x770BFC2D, 0xA5123DF1,
    0x189500D9, 0xCA8CC105, 0xB8679ED6, 0x6A7E5F0A, 0x5DB12170, 0x8FA8E0AC, 0xFD43BF7F, 0x2F5A7EA3,
    0xA22FEEBE, 0x70362F62, 0x02DD70B1, 0xD0C4B16D, 0xE70BCF17, 0x35120ECB, 0x47F95118, 0x95E090C4,
    0x2867ADEC, 0xFA7E6C30, 0x889533E3, 0x5A8CF23F, 0x6D438C45, 0xBF5A4D99, 0xCDB1124A, 0x1FA8D396,
    0xB27E75AD, 0x6067B471, 0x128CEBA2, 0xC0952A7E, 0xF75A5404, 0x254395D8, 0x57A8CA0B, 0x85B10BD7,
    0x383636FF, 0xEA2FF723, 0x98C4A8F0, 0x4ADD692C, 0x7D121756, 0xAF0BD68A, 0xDDE08959, 0x0FF94885,
    0xC3CAB4D4, 0x11D37508, 0x63382ADB, 0xB121EB07, 0x86EE957D, 0x54F754A1, 0x261C0B72, 0xF405CAAE,
    0x4982F786, 0x9B9B365A, 0xE9706989, 0x3B69A855, 0x0CA6D62F, 0xDEBF17F3, 0xAC544820, 0x7E4D89FC,
    0xD39B2FC7, 0x0182EE1B, 0x7369B1C8, 0xA1707014, 0x96BF0E6E, 0x44A6CFB2, 0x364D9061, 0xE45451BD,
    0x59D36C95, 0x8BCAAD49, 0xF921F29A, 0x2B383346, 0x1CF74D3C, 0xCEEE8CE0, 0xBC05D333, 0x6E1C12EF,
    0xE36982F2, 0x3170432E, 0x439B1CFD, 0x9182DD21, 0xA64DA35B, 0x74546287, 0x06BF3D54, 0xD4A6FC88,
    0x6921C1A0, 0xBB38007C, 0xC9D35FAF, 0x1BCA9E73, 0x2C05E009, 0xFE1C21D5, 0x8CF77E06, 0x5EEEBFDA,
    0xF33819E1, 0x2121D83D, 0x53CA87EE, 0x81D34632, 0xB61C3848, 0x6405F994, 0x16EEA647, 0xC4F7679B,
    0x79705AB3, 0xAB699B6F, 0xD982C4BC, 0x0B9B0560, 0x3C547B1A, 0xEE4DBAC6, 0x9CA6E515, 0x4EBF24C9,
];

/// Entry `i` is `T0[i]` advanced by two zero bytes.
pub const T2: [u32; 256] = [
    0x00000000, 0x01D8AC87, 0x03B1590E, 0x0269F589, 0x0762B21C, 0x06BA1E9B, 0x04D3EB12, 0x050B4795,
    0x0EC56438, 0x0F1DC8BF, 0x0D743D36, 0x0CAC91B1, 0x09A7D624, 0x087F7AA3, 0x0A168F2A, 0x0BCE23AD,
    0x1D8AC870, 0x1C5264F7, 0x1E3B917E, 0x1FE33DF9, 0x1AE87A6C, 0x1B30D6EB, 0x19592362, 0x18818FE5,
    0x134FAC48, 0x129700CF, 0x10FEF546, 0x112659C1, 0x142D1E54, 0x15F5B2D3, 0x179C475A, 0x1644EBDD,
    0x3B1590E0, 0x3ACD3C67, 0x38A4C9EE, 0x397C6569, 0x3C7722FC, 0x3DAF8E7B, 0x3FC67BF2, 0x3E1ED775,
    0x35D0F4D8, 0x3408585F, 0x3661ADD6, 0x37B90151, 0x32B246C4, 0x336AEA43, 0x31031FCA, 0x30DBB34D,
    0x269F5890, 0x2747F417, 0x252E019E, 0x24F6AD19, 0x21FDEA8C, 0x2025460B, 0x224CB382, 0x23941F05,
    0x285A3CA8, 0x2982902F, 0x2BEB65A6, 0x2A33C921, 0x2F388EB4, 0x2EE02233, 0x2C89D7BA, 0x2D517B3D,
    0x762B21C0, 0x77F38D47, 0x759A78CE, 0x7442D449, 0x714993DC, 0x70913F5B, 0x72F8CAD2, 0x73206655,
    0x78EE45F8, 0x7936E97F, 0x7B5F1CF6, 0x7A87B071, 0x7F8CF7E4, 0x7E545B63, 0x7C3DAEEA, 0x7DE5026D,
    0x6BA1E9B0, 0x6A794537, 0x6810B0BE, 0x69C81C39, 0x6CC35BAC, 0x6D1BF72B, 0x6F7202A2, 0x6EAAAE25,
    0x65648D88, 0x64BC210F, 0x66D5D486, 0x670D7801, 0x62063F94, 0x63DE9313, 0x61B7669A, 0x606FCA1D,
    0x4D3EB120, 0x4CE61DA7, 0x4E8FE82E, 0x4F5744A9, 0x4A5C033C, 0x4B84AFBB, 0x49ED5A32, 0x4835F6B5,
    0x43FBD518, 0x4223799F, 0x404A8C16, 0x41922091, 0x44996704, 0x4541CB83, 0x47283E0A, 0x46F0928D,
    0x50B47950, 0x516CD5D7, 0x5305205E, 0x52DD8CD9, 0x57D6CB4C, 0x560E67CB, 0x54679242, 0x55BF3EC5,
    0x5E711D68, 0x5FA9B1EF, 0x5DC04466, 0x5C18E8E1, 0x5913AF74, 0x58CB03F3, 0x5AA2F67A, 0x5B7A5AFD,
    0xEC564380, 0xED8EEF07, 0xEFE71A8E, 0xEE3FB609, 0xEB34F19C, 0xEAEC5D1B, 0xE885A892, 0xE95D0415,
    0xE29327B8, 0xE34B8B3F, 0xE1227EB6, 0xE0FAD231, 0xE5F195A4, 0xE4293923, 0xE640CCAA, 0xE798602D,
    0xF1DC8BF0, 0xF0042777, 0xF26DD2FE, 0xF3B57E79, 0xF6BE39EC, 0xF766956B, 0xF50F60E2, 0xF4D7CC65,
    0xFF19EFC8, 0xFEC1434F, 0xFCA8B6C6, 0xFD701A41, 0xF87B5DD4, 0xF9A3F153, 0xFBCA04DA, 0xFA12A85D,
    0xD743D360, 0xD69B7FE7, 0xD4F28A6E, 0xD52A26E9, 0xD021617C, 0xD1F9CDFB, 0xD3903872, 0xD24894F5,
    0xD986B758, 0xD85E1BDF, 0xDA37EE56, 0xDBEF42D1, 0xDEE40544, 0xDF3CA9C3, 0xDD555C4A, 0xDC8DF0CD,
    0xCAC91B10, 0xCB11B797, 0xC978421E, 0xC8A0EE99, 0xCDABA90C, 0xCC73058B, 0xCE1AF002, 0xCFC25C85,
    0xC40C7F28, 0xC5D4D3AF, 0xC7BD2626, 0xC6658AA1, 0xC36ECD34, 0xC2B661B3, 0xC0DF943A, 0xC10738BD,
    0x9A7D6240, 0x9BA5CEC7, 0x99CC3B4E, 0x981497C9, 0x9D1FD05C, 0x9CC77CDB, 0x9EAE8952, 0x9F7625D5,
    0x94B80678, 0x9560AAFF, 0x97095F76, 0x96D1F3F1, 0x93DAB464, 0x920218E3, 0x906BED6A, 0x91B341ED,
    0x87F7AA30, 0x862F06B7, 0x8446F33E, 0x859E5FB9, 0x8095182C, 0x814DB4AB, 0x83244122, 0x82FCEDA5,
    0x8932CE08, 0x88EA628F, 0x8A839706, 0x8B5B3B81, 0x8E507C14, 0x8F88D093, 0x8DE1251A, 0x8C39899D,
    0xA168F2A0, 0xA0B05E27, 0xA2D9ABAE, 0xA3010729, 0xA60A40BC, 0xA7D2EC3B, 0xA5BB19B2, 0xA463B535,
    0xAFAD9698, 0xAE753A1F, 0xAC1CCF96, 0xADC46311, 0xA8CF2484, 0xA9178803, 0xAB7E7D8A, 0xAAA6D10D,
    0xBCE23AD0, 0xBD3A9657, 0xBF5363DE, 0xBE8BCF59, 0xBB8088CC, 0xBA58244B, 0xB831D1C2, 0xB9E97D45,
    0xB2275EE8, 0xB3FFF26F, 0xB19607E6, 0xB04EAB61, 0xB545ECF4, 0xB49D4073, 0xB6F4B5FA, 0xB72C197D,
];

/// Entry `i` is `T0[i]` advanced by three zero bytes.
pub const T3: [u32; 256] = [
    0x00000000, 0xDC6D9AB7, 0xBC1A28D9, 0x6077B26E, 0x7CF54C05, 0xA098D6B2, 0xC0EF64DC, 0x1C82FE6B,
    0xF9EA980A, 0x258702BD, 0x45F0B0D3, 0x999D2A64, 0x851FD40F, 0x59724EB8, 0x3905FCD6, 0xE5686661,
    0xF7142DA3, 0x2B79B714, 0x4B0E057A, 0x97639FCD, 0x8BE161A6, 0x578CFB11, 0x37FB497F, 0xEB96D3C8,
    0x0EFEB5A9, 0xD2932F1E, 0xB2E49D70, 0x6E8907C7, 0x720BF9AC, 0xAE66631B, 0xCE11D175, 0x127C4BC2,
    0xEAE946F1, 0x3684DC46, 0x56F36E28, 0x8A9EF49F, 0x961C0AF4, 0x4A719043, 0x2A06222D, 0xF66BB89A,
    0x1303DEFB, 0xCF6E444C, 0xAF19F622, 0x73746C95, 0x6FF692FE, 0xB39B0849, 0xD3ECBA27, 0x0F812090,
    0x1DFD6B52, 0xC190F1E5, 0xA1E7438B, 0x7D8AD93C, 0x61082757, 0xBD65BDE0, 0xDD120F8E, 0x017F9539,
    0xE417F358, 0x387A69EF, 0x580DDB81, 0x84604136, 0x98E2BF5D, 0x448F25EA, 0x24F89784, 0xF8950D33,
    0xD1139055, 0x0D7E0AE2, 0x6D09B88C, 0xB164223B, 0xADE6DC50, 0x718B46E7, 0x11FCF489, 0xCD916E3E,
    0x28F9085F, 0xF49492E8, 0x94E32086, 0x488EBA31, 0x540C445A, 0x8861DEED, 0xE8166C83, 0x347BF634,
    0x2607BDF6, 0xFA6A2741, 0x9A1D952F, 0x46700F98, 0x5AF2F1F3, 0x869F6B44, 0xE6E8D92A, 0x3A85439D,
    0xDFED25FC, 0x0380BF4B, 0x63F70D25, 0xBF9A9792, 0xA31869F9, 0x7F75F34E, 0x1F024120, 0xC36FDB97,
    0x3BFAD6A4, 0xE7974C13, 0x87E0FE7D, 0x5B8D64CA, 0x470F9AA1, 0x9B620016, 0xFB15B278, 0x277828CF,
    0xC2104EAE, 0x1E7DD419, 0x7E0A6677, 0xA267FCC0, 0xBEE502AB, 0x6288981C, 0x02FF2A72, 0xDE92B0C5,
    0xCCEEFB07, 0x108361B0, 0x70F4D3DE, 0xAC994969, 0xB01BB702, 0x6C762DB5, 0x0C019FDB, 0xD06C056C,
    0x3504630D, 0xE969F9BA, 0x891E4BD4, 0x5573D163, 0x49F12F08, 0x959CB5BF, 0xF5EB07D1, 0x29869D66,
    0xA6E63D1D, 0x7A8BA7AA, 0x1AFC15C4, 0xC6918F73, 0xDA137118, 0x067EEBAF, 0x660959C1, 0xBA64C376,
    0x5F0CA517, 0x83613FA0, 0xE3168DCE, 0x3F7B1779, 0x23F9E912, 0xFF9473A5, 0x9FE3C1CB, 0x438E5B7C,
    0x51F210BE, 0x8D9F8A09, 0xEDE83867, 0x3185A2D0, 0x2D075CBB, 0xF16AC60C, 0x911D7462, 0x4D70EED5,
    0xA81888B4, 0x74751203, 0x1402A06D, 0xC86F3ADA, 0xD4EDC4B1, 0x08805E06, 0x68F7EC68, 0xB49A76DF,
    0x4C0F7BEC, 0x9062E15B, 0xF0155335, 0x2C78C982, 0x30FA37E9, 0xEC97AD5E, 0x8CE01F30, 0x508D8587,
    0xB5E5E3E6, 0x69887951, 0x09FFCB3F, 0xD5925188, 0xC910AFE3, 0x157D3554, 0x750A873A, 0xA9671D8D,
    0xBB1B564F, 0x6776CCF8, 0x07017E96, 0xDB6CE421, 0xC7EE1A4A, 0x1B8380FD, 0x7BF43293, 0xA799A824,
    0x42F1CE45, 0x9E9C54F2, 0xFEEBE69C, 0x22867C2B, 0x3E048240, 0xE26918F7, 0x821EAA99, 0x5E73302E,
    0x77F5AD48, 0xAB9837FF, 0xCBEF8591, 0x17821F26, 0x0B00E14D, 0xD76D7BFA, 0xB71AC994, 0x6B775323,
    0x8E1F3542, 0x5272AFF5, 0x32051D9B, 0xEE68872C, 0xF2EA7947, 0x2E87E3F0, 0x4EF0519E, 0x929DCB29,
    0x80E180EB, 0x5C8C1A5C, 0x3CFBA832, 0xE0963285, 0xFC14CCEE, 0x20795659, 0x400EE437, 0x9C637E80,
    0x790B18E1, 0xA5668256, 0xC5113038, 0x197CAA8F, 0x05FE54E4, 0xD993CE53, 0xB9E47C3D, 0x6589E68A,
    0x9D1CEBB9, 0x4171710E, 0x2106C360, 0xFD6B59D7, 0xE1E9A7BC, 0x3D843D0B, 0x5DF38F65, 0x819E15D2,
    0x64F673B3, 0xB89BE904, 0xD8EC5B6A, 0x0481C1DD, 0x18033FB6, 0xC46EA501, 0xA419176F, 0x78748DD8,
    0x6A08C61A, 0xB6655CAD, 0xD612EEC3, 0x0A7F7474, 0x16FD8A1F, 0xCA9010A8, 0xAAE7A2C6, 0x768A3871,
    0x93E25E10, 0x4F8FC4A7, 0x2FF876C9, 0xF395EC7E, 0xEF171215, 0x337A88A2, 0x530D3ACC, 0x8F60A07B,
];

/// Every entry of `T0` is the byte `i` in the top of an empty register shifted by one byte.
pub proof fn lemma_t0(i: int)
    requires
        0 <= i < 256,
    ensures
        T0@[i] == shift_byte((i as u32) << 24),
{
    assert(forall|b: u32| b < 256 ==> #[trigger] (b << 24) == b * 0x100_0000) by (bit_vector);
    let at = (i as u32) << 24;
    assert(at == i * 0x100_0000);
    assert({
        &&& shift_byte(0x00000000) == 0x00000000
        &&& shift_byte(0x01000000) == 0x04C11DB7
        &&& shift_byte(0x02000000) == 0x09823B6E
        &&& shift_byte(0x03000000) == 0x0D4326D9
        &&& shift_byte(0x04000000) == 0x130476DC
        &&& shift_byte(0x05000000) == 0x17C56B6B
        &&& shift_byte(0x06000000) == 0x1A864DB2
        &&& shift_byte(0x07000000) == 0x1E475005
        &&& shift_byte(0x08000000) == 0x2608EDB8
        &&& shift_byte(0x09000000) == 0x22C9F00F
        &&& shift_byte(0x0A000000) == 0x2F8AD6D6
        &&& shift_byte(0x0B000000) == 0x2B4BCB61
        &&& shift_byte(0x0C000000) == 0x350C9B64
        &&& shift_byte(0x0D000000) == 0x31CD86D3
        &&& shift_byte(0x0E000000) == 0x3C8EA00A
        &&& shift_byte(0x0F000000) == 0x384FBDBD
        &&& shift_byte(0x10000000) == 0x4C11DB70
        &&& shift_byte(0x11000000) == 0x48D0C6C7
        &&& shift_byte(0x12000000) == 0x4593E01E
        &&& shift_byte(0x13000000) == 0x4152FDA9
        &&& shift_byte(0x14000000) == 0x5F15ADAC
        &&& shift_byte(0x15000000) == 0x5BD4B01B
        &&& shift_byte(0x16000000) == 0x569796C2
        &&& shift_byte(0x17000000) == 0x52568B75
        &&& shift_byte(0x18000000) == 0x6A1936C8
        &&& shift_byte(0x19000000) == 0x6ED82B7F
        &&& shift_byte(0x1A000000) == 0x639B0DA6
        &&& shift_byte(0x1B000000) == 0x675A1011
        &&& shift_byte(0x1C000000) == 0x791D4014
        &&& shift_byte(0x1D000000) == 0x7DDC5DA3
        &&& shift_byte(0x1E000000) == 0x709F7B7A
        &&& shift_byte(0x1F000000) == 0x745E66CD
        &&& shift_byte(0x20000000) == 0x9823B6E0
        &&& shift_byte(0x21000000) == 0x9CE2AB57
        &&& shift_byte(0x22000000) == 0x91A18D8E
        &&& shift_byte(0x23000000) == 0x95609039
        &&& shift_byte(0x24000000) == 0x8B27C03C
        &&& shift_byte(0x25000000) == 0x8FE6DD8B
        &&& shift_byte(0x26000000) == 0x82A5FB52
        &&& shift_byte(0x27000000) == 0x8664E6E5
        &&& shift_byte(0x28000000) == 0xBE2B5B58
        &&& shift_byte(0x29000000) == 0xBAEA46EF
        &&& shift_byte(0x2A000000) == 0xB7A96036
        &&& shift_byte(0x2B000000) == 0xB3687D81
        &&& shift_byte(0x2C000000) == 0xAD2F2D84
        &&& shift_byte(0x2D000000) == 0xA9EE3033
        &&& shift_byte(0x2E000000) == 0xA4AD16EA
        &&& shift_byte(0x2F000000) == 0xA06C0B5D
        &&& shift_byte(0x30000000) == 0xD4326D90
        &&& shift_byte(0x31000000) == 0xD0F37027
        &&& shift_byte(0x32000000) == 0xDDB056FE
        &&& shift_byte(0x33000000) == 0xD9714B49
        &&& shift_byte(0x34000000) == 0xC7361B4C
        &&& shift_byte(0x35000000) == 0xC3F706FB
        &&& shift_byte(0x36000000) == 0xCEB42022
        &&& shift_byte(0x37000000) == 0xCA753D95
        &&& shift_byte(0x38000000) == 0xF23A8028
        &&& shift_byte(0x39000000) == 0xF6FB9D9F
        &&& shift_byte(0x3A000000) == 0xFBB8BB46
        &&& shift_byte(0x3B000000) == 0xFF79A6F1
        &&& shift_byte(0x3C000000) == 0xE13EF6F4
        &&& shift_byte(0x3D000000) == 0xE5FFEB43
        &&& shift_byte(0x3E000000) == 0xE8BCCD9A
        &&& shift_byte(0x3F000000) == 0xEC7DD02D
        &&& shift_byte(0x40000000) == 0x34867077
        &&& shift_byte(0x41000000) == 0x30476DC0
        &&& shift_byte(0x42000000) == 0x3D044B19
        &&& shift_byte(0x43000000) == 0x39C556AE
        &&& shift_byte(0x44000000) == 0x278206AB
        &&& shift_byte(0x45000000) == 0x23431B1C
        &&& shift_byte(0x46000000) == 0x2E003DC5
        &&& shift_byte(0x47000000) == 0x2AC12072
        &&& shift_byte(0x48000000) == 0x128E9DCF
        &&& shift_byte(0x49000000) == 0x164F8078
        &&& shift_byte(0x4A000000) == 0x1B0CA6A1
        &&& shift_byte(0x4B000000) == 0x1FCDBB16
        &&& shift_byte(0x4C000000) == 0x018AEB13
        &&& shift_byte(0x4D000000) == 0x054BF6A4
        &&& shift_byte(0x4E000000) == 0x0808D07D
        &&& shift_byte(0x4F000000) == 0x0CC9CDCA
        &&& shift_byte(0x50000000) == 0x7897AB07
        &&& shift_byte(0x51000000) == 0x7C56B6B0
        &&& shift_byte(0x52000000) == 0x71159069
        &&& shift_byte(0x53000000) == 0x75D48DDE
        &&& shift_byte(0x54000000) == 0x6B93DDDB
        &&& shift_byte(0x55000000) == 0x6F52C06C
        &&& shift_byte(0x56000000) == 0x6211E6B5
        &&& shift_byte(0x57000000) == 0x66D0FB02
        &&& shift_byte(0x58000000) == 0x5E9F46BF
        &&& shift_byte(0x59000000) == 0x5A5E5B08
        &&& shift_byte(0x5A000000) == 0x571D7DD1
        &&& shift_byte(0x5B000000) == 0x53DC6066
        &&& shift_byte(0x5C000000) == 0x4D9B3063
        &&& shift_byte(0x5D000000) == 0x495A2DD4
        &&& shift_byte(0x5E000000) == 0x44190B0D
        &&& shift_byte(0x5F000000) == 0x40D816BA
        &&& shift_byte(0x60000000) == 0xACA5C697
        &&& shift_byte(0x61000000) == 0xA864DB20
        &&& shift_byte(0x62000000) == 0xA527FDF9
        &&& shift_byte(0x63000000) == 0xA1E6E04E
        &&& shift_byte(0x64000000) == 0xBFA1B04B
        &&& shift_byte(0x65000000) == 0xBB60ADFC
        &&& shift_byte(0x66000000) == 0xB6238B25
        &&& shift_byte(0x67000000) == 0xB2E29692
        &&& shift_byte(0x68000000) == 0x8AAD2B2F
        &&& shift_byte(0x69000000) == 0x8E6C3698
        &&& shift_byte(0x6A000000) == 0x832F1041
        &&& shift_byte(0x6B000000) == 0x87EE0DF6
        &&& shift_byte(0x6C000000) == 0x99A95DF3
        &&& shift_byte(0x6D000000) == 0x9D684044
        &&& shift_byte(0x6E000000) == 0x902B669D
        &&& shift_byte(0x6F000000) == 0x94EA7B2A
        &&& shift_byte(0x70000000) == 0xE0B41DE7
        &&& shift_byte(0x71000000) == 0xE4750050
        &&& shift_byte(0x72000000) == 0xE9362689
        &&& shift_byte(0x73000000) == 0xEDF73B3E
        &&& shift_byte(0x74000000) == 0xF3B06B3B
        &&& shift_byte(0x75000000) == 0xF771768C
        &&& shift_byte(0x76000000) == 0xFA325055
        &&& shift_byte(0x77000000) == 0xFEF34DE2
        &&& shift_byte(0x78000000) == 0xC6BCF05F
        &&& shift_byte(0x79000000) == 0xC27DEDE8
        &&& shift_byte(0x7A000000) == 0xCF3ECB31
        &&& shift_byte(0x7B000000) == 0xCBFFD686
        &&& shift_byte(0x7C000000) == 0xD5B88683
        &&& shift_byte(0x7D000000) == 0xD1799B34
        &&& shift_byte(0x7E000000) == 0xDC3ABDED
        &&& shift_byte(0x7F000000) == 0xD8FBA05A
        &&& shift_byte(0x80000000) == 0x690CE0EE
        &&& shift_byte(0x81000000) == 0x6DCDFD59
        &&& shift_byte(0x82000000) == 0x608EDB80
        &&& shift_byte(0x83000000) == 0x644FC637
        &&& shift_byte(0x84000000) == 0x7A089632
        &&& shift_byte(0x85000000) == 0x7EC98B85
        &&& shift_byte(0x86000000) == 0x738AAD5C
        &&& shift_byte(0x87000000) == 0x774BB0EB
        &&& shift_byte(0x88000000) == 0x4F040D56
        &&& shift_byte(0x89000000) == 0x4BC510E1
        &&& shift_byte(0x8A000000) == 0x46863638
        &&& shift_byte(0x8B000000) == 0x42472B8F
        &&& shift_byte(0x8C000000) == 0x5C007B8A
        &&& shift_byte(0x8D000000) == 0x58C1663D
        &&& shift_byte(0x8E000000) == 0x558240E4
        &&& shift_byte(0x8F000000) == 0x51435D53
        &&& shift_byte(0x90000000) == 0x251D3B9E
        &&& shift_byte(0x91000000) == 0x21DC2629
        &&& shift_byte(0x92000000) == 0x2C9F00F0
        &&& shift_byte(0x93000000) == 0x285E1D47
        &&& shift_byte(0x94000000) == 0x36194D42
        &&& shift_byte(0x95000000) == 0x32D850F5
        &&& shift_byte(0x96000000) == 0x3F9B762C
        &&& shift_byte(0x97000000) == 0x3B5A6B9B
        &&& shift_byte(0x98000000) == 0x0315D626
        &&& shift_byte(0x99000000) == 0x07D4CB91
        &&& shift_byte(0x9A000000) == 0x0A97ED48
        &&& shift_byte(0x9B000000) == 0x0E56F0FF
        &&& shift_byte(0x9C000000) == 0x1011A0FA
        &&& shift_byte(0x9D000000) == 0x14D0BD4D
        &&& shift_byte(0x9E000000) == 0x19939B94
        &&& shift_byte(0x9F000000) == 0x1D528623
        &&& shift_byte(0xA0000000) == 0xF12F560E
        &&& shift_byte(0xA1000000) == 0xF5EE4BB9
        &&& shift_byte(0xA2000000) == 0xF8AD6D60
        &&& shift_byte(0xA3000000) == 0xFC6C70D7
        &&& shift_byte(0xA4000000) == 0xE22B20D2
        &&& shift_byte(0xA5000000) == 0xE6EA3D65
        &&& shift_byte(0xA6000000) == 0xEBA91BBC
        &&& shift_byte(0xA7000000) == 0xEF68060B
        &&& shift_byte(0xA8000000) == 0xD727BBB6
        &&& shift_byte(0xA9000000) == 0xD3E6A601
        &&& shift_byte(0xAA000000) == 0xDEA580D8
        &&& shift_byte(0xAB000000) == 0xDA649D6F
        &&& shift_byte(0xAC000000) == 0xC423CD6A
        &&& shift_byte(0xAD000000) == 0xC0E2D0DD
        &&& shift_byte(0xAE000000) == 0xCDA1F604
        &&& shift_byte(0xAF000000) == 0xC960EBB3
        &&& shift_byte(0xB0000000) == 0xBD3E8D7E
        &&& shift_byte(0xB1000000) == 0xB9FF90C9
        &&& shift_byte(0xB2000000) == 0xB4BCB610
        &&& shift_byte(0xB3000000) == 0xB07DABA7
        &&& shift_byte(0xB4000000) == 0xAE3AFBA2
        &&& shift_byte(0xB5000000) == 0xAAFBE615
        &&& shift_byte(0xB6000000) == 0xA7B8C0CC
        &&& shift_byte(0xB7000000) == 0xA379DD7B
        &&& shift_byte(0xB8000000) == 0x9B3660C6
        &&& shift_byte(0xB9000000) == 0x9FF77D71
        &&& shift_byte(0xBA000000) == 0x92B45BA8
        &&& shift_byte(0xBB000000) == 0x9675461F
        &&& shift_byte(0xBC000000) == 0x8832161A
        &&& shift_byte(0xBD000000) == 0x8CF30BAD
        &&& shift_byte(0xBE000000) == 0x81B02D74
        &&& shift_byte(0xBF000000) == 0x857130C3
        &&& shift_byte(0xC0000000) == 0x5D8A9099
        &&& shift_byte(0xC1000000) == 0x594B8D2E
        &&& shift_byte(0xC2000000) == 0x5408ABF7
        &&& shift_byte(0xC3000000) == 0x50C9B640
        &&& shift_byte(0xC4000000) == 0x4E8EE645
        &&& shift_byte(0xC5000000) == 0x4A4FFBF2
        &&& shift_byte(0xC6000000) == 0x470CDD2B
        &&& shift_byte(0xC7000000) == 0x43CDC09C
        &&& shift_byte(0xC8000000) == 0x7B827D21
        &&& shift_byte(0xC9000000) == 0x7F436096
        &&& shift_byte(0xCA000000) == 0x7200464F
        &&& shift_byte(0xCB000000) == 0x76C15BF8
        &&& shift_byte(0xCC000000) == 0x68860BFD
        &&& shift_byte(0xCD000000) == 0x6C47164A
        &&& shift_byte(0xCE000000) == 0x61043093
        &&& shift_byte(0xCF000000) == 0x65C52D24
        &&& shift_byte(0xD0000000) == 0x119B4BE9
        &&& shift_byte(0xD1000000) == 0x155A565E
        &&& shift_byte(0xD2000000) == 0x18197087
        &&& shift_byte(0xD3000000) == 0x1CD86D30
        &&& shift_byte(0xD4000000) == 0x029F3D35
        &&& shift_byte(0xD5000000) == 0x065E2082
        &&& shift_byte(0xD6000000) == 0x0B1D065B
        &&& shift_byte(0xD7000000) == 0x0FDC1BEC
        &&& shift_byte(0xD8000000) == 0x3793A651
        &&& shift_byte(0xD9000000) == 0x3352BBE6
        &&& shift_byte(0xDA000000) == 0x3E119D3F
        &&& shift_byte(0xDB000000) == 0x3AD08088
        &&& shift_byte(0xDC000000) == 0x2497D08D
        &&& shift_byte(0xDD000000) == 0x2056CD3A
        &&& shift_byte(0xDE000000) == 0x2D15EBE3
        &&& shift_byte(0xDF000000) == 0x29D4F654
        &&& shift_byte(0xE0000000) == 0xC5A92679
        &&& shift_byte(0xE1000000) == 0xC1683BCE
        &&& shift_byte(0xE2000000) == 0xCC2B1D17
        &&& shift_byte(0xE3000000) == 0xC8EA00A0
        &&& shift_byte(0xE4000000) == 0xD6AD50A5
        &&& shift_byte(0xE5000000) == 0xD26C4D12
        &&& shift_byte(0xE6000000) == 0xDF2F6BCB
        &&& shift_byte(0xE7000000) == 0xDBEE767C
        &&& shift_byte(0xE8000000) == 0xE3A1CBC1
        &&& shift_byte(0xE9000000) == 0xE760D676
        &&& shift_byte(0xEA000000) == 0xEA23F0AF
        &&& shift_byte(0xEB000000) == 0xEEE2ED18
        &&& shift_byte(0xEC000000) == 0xF0A5BD1D
        &&& shift_byte(0xED000000) == 0xF464A0AA
        &&& shift_byte(0xEE000000) == 0xF9278673
        &&& shift_byte(0xEF000000) == 0xFDE69BC4
        &&& shift_byte(0xF0000000) == 0x89B8FD09
        &&& shift_byte(0xF1000000) == 0x8D79E0BE
        &&& shift_byte(0xF2000000) == 0x803AC667
        &&& shift_byte(0xF3000000) == 0x84FBDBD0
        &&& shift_byte(0xF4000000) == 0x9ABC8BD5
        &&& shift_byte(0xF5000000) == 0x9E7D9662
        &&& shift_byte(0xF6000000) == 0x933EB0BB
        &&& shift_byte(0xF7000000) == 0x97FFAD0C
        &&& shift_byte(0xF8000000) == 0xAFB010B1
        &&& shift_byte(0xF9000000) == 0xAB710D06
        &&& shift_byte(0xFA000000) == 0xA6322BDF
        &&& shift_byte(0xFB000000) == 0xA2F33668
        &&& shift_byte(0xFC000000) == 0xBCB4666D
        &&& shift_byte(0xFD000000) == 0xB8757BDA
        &&& shift_byte(0xFE000000) == 0xB5365D03
        &&& shift_byte(0xFF000000) == 0xB1F740B4
    }) by (bit_vector);
}

/// Every entry of `T1` is the entry `i` of `T0` shifted by one byte.
pub proof fn lemma_t1(i: int)
    requires
        0 <= i < 256,
    ensures
        T1@[i] == shift_byte(T0@[i]),
{
    assert({
        &&& shift_byte(0x00000000) == 0x00000000
        &&& shift_byte(0x04C11DB7) == 0xD219C1DC
        &&& shift_byte(0x09823B6E) == 0xA0F29E0F
        &&& shift_byte(0x0D4326D9) == 0x72EB5FD3
        &&& shift_byte(0x130476DC) == 0x452421A9
        &&& shift_byte(0x17C56B6B) == 0x973DE075
        &&& shift_byte(0x1A864DB2) == 0xE5D6BFA6
        &&& shift_byte(0x1E475005) == 0x37CF7E7A
        &&& shift_byte(0x2608EDB8) == 0x8A484352
        &&& shift_byte(0x22C9F00F) == 0x5851828E
        &&& shift_byte(0x2F8AD6D6) == 0x2ABADD5D
        &&& shift_byte(0x2B4BCB61) == 0xF8A31C81
        &&& shift_byte(0x350C9B64) == 0xCF6C62FB
        &&& shift_byte(0x31CD86D3) == 0x1D75A327
        &&& shift_byte(0x3C8EA00A) == 0x6F9EFCF4
        &&& shift_byte(0x384FBDBD) == 0xBD873D28
        &&& shift_byte(0x4C11DB70) == 0x10519B13
        &&& shift_byte(0x48D0C6C7) == 0xC2485ACF
        &&& shift_byte(0x4593E01E) == 0xB0A3051C
        &&& shift_byte(0x4152FDA9) == 0x62BAC4C0
        &&& shift_byte(0x5F15ADAC) == 0x5575BABA
        &&& shift_byte(0x5BD4B01B) == 0x876C7B66
        &&& shift_byte(0x569796C2) == 0xF58724B5
        &&& shift_byte(0x52568B75) == 0x279EE569
        &&& shift_byte(0x6A1936C8) == 0x9A19D841
        &&& shift_byte(0x6ED82B7F) == 0x4800199D
        &&& shift_byte(0x639B0DA6) == 0x3AEB464E
        &&& shift_byte(0x675A1011) == 0xE8F28792
        &&& shift_byte(0x791D4014) == 0xDF3DF9E8
        &&& shift_byte(0x7DDC5DA3) == 0x0D243834
        &&& shift_byte(0x709F7B7A) == 0x7FCF67E7
        &&& shift_byte(0x745E66CD) == 0xADD6A63B
        &&& shift_byte(0x9823B6E0) == 0x20A33626
        &&& shift_byte(0x9CE2AB57) == 0xF2BAF7FA
        &&& shift_byte(0x91A18D8E) == 0x8051A829
        &&& shift_byte(0x95609039) == 0x524869F5
        &&& shift_byte(0x8B27C03C) == 0x6587178F
        &&& shift_byte(0x8FE6DD8B) == 0xB79ED653
        &&& shift_byte(0x82A5FB52) == 0xC5758980
        &&& shift_byte(0x8664E6E5) == 0x176C485C
        &&& shift_byte(0xBE2B5B58) == 0xAAEB7574
        &&& shift_byte(0xBAEA46EF) == 0x78F2B4A8
        &&& shift_byte(0xB7A96036) == 0x0A19EB7B
        &&& shift_byte(0xB3687D81) == 0xD8002AA7
        &&& shift_byte(0xAD2F2D84) == 0xEFCF54DD
        &&& shift_byte(0xA9EE3033) == 0x3DD69501
        &&& shift_byte(0xA4AD16EA) == 0x4F3DCAD2
        &&& shift_byte(0xA06C0B5D) == 0x9D240B0E
        &&& shift_byte(0xD4326D90) == 0x30F2AD35
        &&& shift_byte(0xD0F37027) == 0xE2EB6CE9
        &&& shift_byte(0xDDB056FE) == 0x9000333A
        &&& shift_byte(0xD9714B49) == 0x4219F2E6
        &&& shift_byte(0xC7361B4C) == 0x75D68C9C
        &&& shift_byte(0xC3F706FB) == 0xA7CF4D40
        &&& shift_byte(0xCEB42022) == 0xD5241293
        &&& shift_byte(0xCA753D95) == 0x073DD34F
        &&& shift_byte(0xF23A8028) == 0xBABAEE67
        &&& shift_byte(0xF6FB9D9F) == 0x68A32FBB
        &&& shift_byte(0xFBB8BB46) == 0x1A487068
        &&& shift_byte(0xFF79A6F1) == 0xC851B1B4
        &&& shift_byte(0xE13EF6F4) == 0xFF9ECFCE
        &&& shift_byte(0xE5FFEB43) == 0x2D870E12
        &&& shift_byte(0xE8BCCD9A) == 0x5F6C51C1
        &&& shift_byte(0xEC7DD02D) == 0x8D75901D
        &&& shift_byte(0x34867077) == 0x41466C4C
        &&& shift_byte(0x30476DC0) == 0x935FAD90
        &&& shift_byte(0x3D044B19) == 0xE1B4F243
        &&& shift_byte(0x39C556AE) == 0x33AD339F
        &&& shift_byte(0x278206AB) == 0x04624DE5
        &&& shift_byte(0x23431B1C) == 0xD67B8C39
        &&& shift_byte(0x2E003DC5) == 0xA490D3EA
        &&& shift_byte(0x2AC12072) == 0x76891236
        &&& shift_byte(0x128E9DCF) == 0xCB0E2F1E
        &&& shift_byte(0x164F8078) == 0x1917EEC2
        &&& shift_byte(0x1B0CA6A1) == 0x6BFCB111
        &&& shift_byte(0x1FCDBB16) == 0xB9E570CD
        &&& shift_byte(0x018AEB13) == 0x8E2A0EB7
        &&& shift_byte(0x054BF6A4) == 0x5C33CF6B
        &&& shift_byte(0x0808D07D) == 0x2ED890B8
        &&& shift_byte(0x0CC9CDCA) == 0xFCC15164
        &&& shift_byte(0x7897AB07) == 0x5117F75F
        &&& shift_byte(0x7C56B6B0) == 0x830E3683
        &&& shift_byte(0x71159069) == 0xF1E56950
        &&& shift_byte(0x75D48DDE) == 0x23FCA88C
        &&& shift_byte(0x6B93DDDB) == 0x1433D6F6
        &&& shift_byte(0x6F52C06C) == 0xC62A172A
        &&& shift_byte(0x6211E6B5) == 0xB4C148F9
        &&& shift_byte(0x66D0FB02) == 0x66D88925
        &&& shift_byte(0x5E9F46BF) == 0xDB5FB40D
        &&& shift_byte(0x5A5E5B08) == 0x094675D1
        &&& shift_byte(0x571D7DD1) == 0x7BAD2A02
        &&& shift_byte(0x53DC6066) == 0xA9B4EBDE
        &&& shift_byte(0x4D9B3063) == 0x9E7B95A4
        &&& shift_byte(0x495A2DD4) == 0x4C625478
        &&& shift_byte(0x44190B0D) == 0x3E890BAB
        &&& shift_byte(0x40D816BA) == 0xEC90CA77
        &&& shift_byte(0xACA5C697) == 0x61E55A6A
        &&& shift_byte(0xA864DB20) == 0xB3FC9BB6
        &&& shift_byte(0xA527FDF9) == 0xC117C465
        &&& shift_byte(0xA1E6E04E) == 0x130E05B9
        &&& shift_byte(0xBFA1B04B) == 0x24C17BC3
        &&& shift_byte(0xBB60ADFC) == 0xF6D8BA1F
        &&& shift_byte(0xB6238B25) == 0x8433E5CC
        &&& shift_byte(0xB2E29692) == 0x562A2410
        &&& shift_byte(0x8AAD2B2F) == 0xEBAD1938
        &&& shift_byte(0x8E6C3698) == 0x39B4D8E4
        &&& shift_byte(0x832F1041) == 0x4B5F8737
        &&& shift_byte(0x87EE0DF6) == 0x994646EB
        &&& shift_byte(0x99A95DF3) == 0xAE893891
        &&& shift_byte(0x9D684044) == 0x7C90F94D
        &&& shift_byte(0x902B669D) == 0x0E7BA69E
        &&& shift_byte(0x94EA7B2A) == 0xDC626742
        &&& shift_byte(0xE0B41DE7) == 0x71B4C179
        &&& shift_byte(0xE4750050) == 0xA3AD00A5
        &&& shift_byte(0xE9362689) == 0xD1465F76
        &&& shift_byte(0xEDF73B3E) == 0x035F9EAA
        &&& shift_byte(0xF3B06B3B) == 0x3490E0D0
        &&& shift_byte(0xF771768C) == 0xE689210C
        &&& shift_byte(0xFA325055) == 0x94627EDF
        &&& shift_byte(0xFEF34DE2) == 0x467BBF03
        &&& shift_byte(0xC6BCF05F) == 0xFBFC822B
        &&& shift_byte(0xC27DEDE8) == 0x29E543F7
        &&& shift_byte(0xCF3ECB31) == 0x5B0E1C24
        &&& shift_byte(0xCBFFD686) == 0x8917DDF8
        &&& shift_byte(0xD5B88683) == 0xBED8A382
        &&& shift_byte(0xD1799B34) == 0x6CC1625E
        &&& shift_byte(0xDC3ABDED) == 0x1E2A3D8D
        &&& shift_byte(0xD8FBA05A) == 0xCC33FC51
        &&& shift_byte(0x690CE0EE) == 0x828CD898
        &&& shift_byte(0x6DCDFD59) == 0x50951944
        &&& shift_byte(0x608EDB80) == 0x227E4697
        &&& shift_byte(0x644FC637) == 0xF067874B
        &&& shift_byte(0x7A089632) == 0xC7A8F931
        &&& shift_byte(0x7EC98B85) == 0x15B138ED
        &&& shift_byte(0x738AAD5C) == 0x675A673E
        &&& shift_byte(0x774BB0EB) == 0xB543A6E2
        &&& shift_byte(0x4F040D56) == 0x08C49BCA
        &&& shift_byte(0x4BC510E1) == 0xDADD5A16
        &&& shift_byte(0x46863638) == 0xA83605C5
        &&& shift_byte(0x42472B8F) == 0x7A2FC419
        &&& shift_byte(0x5C007B8A) == 0x4DE0BA63
        &&& shift_byte(0x58C1663D) == 0x9FF97BBF
        &&& shift_byte(0x558240E4) == 0xED12246C
        &&& shift_byte(0x51435D53) == 0x3F0BE5B0
        &&& shift_byte(0x251D3B9E) == 0x92DD438B
        &&& shift_byte(0x21DC2629) == 0x40C48257
        &&& shift_byte(0x2C9F00F0) == 0x322FDD84
        &&& shift_byte(0x285E1D47) == 0xE0361C58
        &&& shift_byte(0x36194D42) == 0xD7F96222
        &&& shift_byte(0x32D850F5) == 0x05E0A3FE
        &&& shift_byte(0x3F9B762C) == 0x770BFC2D
        &&& shift_byte(0x3B5A6B9B) == 0xA5123DF1
        &&& shift_byte(0x0315D626) == 0x189500D9
        &&& shift_byte(0x07D4CB91) == 0xCA8CC105
        &&& shift_byte(0x0A97ED48) == 0xB8679ED6
        &&& shift_byte(0x0E56F0FF) == 0x6A7E5F0A
        &&& shift_byte(0x1011A0FA) == 0x5DB12170
        &&& shift_byte(0x14D0BD4D) == 0x8FA8E0AC
        &&& shift_byte(0x19939B94) == 0xFD43BF7F
        &&& shift_byte(0x1D528623) == 0x2F5A7EA3
        &&& shift_byte(0xF12F560E) == 0xA22FEEBE
        &&& shift_byte(0xF5EE4BB9) == 0x70362F62
        &&& shift_byte(0xF8AD6D60) == 0x02DD70B1
        &&& shift_byte(0xFC6C70D7) == 0xD0C4B16D
        &&& shift_byte(0xE22B20D2) == 0xE70BCF17
        &&& shift_byte(0xE6EA3D65) == 0x35120ECB
        &&& shift_byte(0xEBA91BBC) == 0x47F95118
        &&& shift_byte(0xEF68060B) == 0x95E090C4
        &&& shift_byte(0xD727BBB6) == 0x2867ADEC
        &&& shift_byte(0xD3E6A601) == 0xFA7E6C30
        &&& shift_byte(0xDEA580D8) == 0x889533E3
        &&& shift_byte(0xDA649D6F) == 0x5A8CF23F
        &&& shift_byte(0xC423CD6A) == 0x6D438C45
        &&& shift_byte(0xC0E2D0DD) == 0xBF5A4D99
        &&& shift_byte(0xCDA1F604) == 0xCDB1124A
        &&& shift_byte(0xC960EBB3) == 0x1FA8D396
        &&& shift_byte(0xBD3E8D7E) == 0xB27E75AD
        &&& shift_byte(0xB9FF90C9) == 0x6067B471
        &&& shift_byte(0xB4BCB610) == 0x128CEBA2
        &&& shift_byte(0xB07DABA7) == 0xC0952A7E
        &&& shift_byte(0xAE3AFBA2) == 0xF75A5404
        &&& shift_byte(0xAAFBE615) == 0x254395D8
        &&& shift_byte(0xA7B8C0CC) == 0x57A8CA0B
        &&& shift_byte(0xA379DD7B) == 0x85B10BD7
        &&& shift_byte(0x9B3660C6) == 0x383636FF
        &&& shift_byte(0x9FF77D71) == 0xEA2FF723
        &&& shift_byte(0x92B45BA8) == 0x98C4A8F0
        &&& shift_byte(0x9675461F) == 0x4ADD692C
        &&& shift_byte(0x8832161A) == 0x7D121756
        &&& shift_byte(0x8CF30BAD) == 0xAF0BD68A
        &&& shift_byte(0x81B02D74) == 0xDDE08959
        &&& shift_byte(0x857130C3) == 0x0FF94885
        &&& shift_byte(0x5D8A9099) == 0xC3CAB4D4
        &&& shift_byte(0x594B8D2E) == 0x11D37508
        &&& shift_byte(0x5408ABF7) == 0x63382ADB
        &&& shift_byte(0x50C9B640) == 0xB121EB07
        &&& shift_byte(0x4E8EE645) == 0x86EE957D
        &&& shift_byte(0x4A4FFBF2) == 0x54F754A1
        &&& shift_byte(0x470CDD2B) == 0x261C0B72
        &&& shift_byte(0x43CDC09C) == 0xF405CAAE
        &&& shift_byte(0x7B827D21) == 0x4982F786
        &&& shift_byte(0x7F436096) == 0x9B9B365A
        &&& shift_byte(0x7200464F) == 0xE9706989
        &&& shift_byte(0x76C15BF8) == 0x3B69A855
        &&& shift_byte(0x68860BFD) == 0x0CA6D62F
        &&& shift_byte(0x6C47164A) == 0xDEBF17F3
        &&& shift_byte(0x61043093) == 0xAC544820
        &&& shift_byte(0x65C52D24) == 0x7E4D89FC
        &&& shift_byte(0x119B4BE9) == 0xD39B2FC7
        &&& shift_byte(0x155A565E) == 0x0182EE1B
        &&& shift_byte(0x18197087) == 0x7369B1C8
        &&& shift_byte(0x1CD86D30) == 0xA1707014
        &&& shift_byte(0x029F3D35) == 0x96BF0E6E
        &&& shift_byte(0x065E2082) == 0x44A6CFB2
        &&& shift_byte(0x0B1D065B) == 0x364D9061
        &&& shift_byte(0x0FDC1BEC) == 0xE45451BD
        &&& shift_byte(0x3793A651) == 0x59D36C95
        &&& shift_byte(0x3352BBE6) == 0x8BCAAD49
        &&& shift_byte(0x3E119D3F) == 0xF921F29A
        &&& shift_byte(0x3AD08088) == 0x2B383346
        &&& shift_byte(0x2497D08D) == 0x1CF74D3C
        &&& shift_byte(0x2056CD3A) == 0xCEEE8CE0
        &&& shift_byte(0x2D15EBE3) == 0xBC05D333
        &&& shift_byte(0x29D4F654) == 0x6E1C12EF
        &&& shift_byte(0xC5A92679) == 0xE36982F2
        &&& shift_byte(0xC1683BCE) == 0x3170432E
        &&& shift_byte(0xCC2B1D17) == 0x439B1CFD
        &&& shift_byte(0xC8EA00A0) == 0x9182DD21
        &&& shift_byte(0xD6AD50A5) == 0xA64DA35B
        &&& shift_byte(0xD26C4D12) == 0x74546287
        &&& shift_byte(0xDF2F6BCB) == 0x06BF3D54
        &&& shift_byte(0xDBEE767C) == 0xD4A6FC88
        &&& shift_byte(0xE3A1CBC1) == 0x6921C1A0
        &&& shift_byte(0xE760D676) == 0xBB38007C
        &&& shift_byte(0xEA23F0AF) == 0xC9D35FAF
        &&& shift_byte(0xEEE2ED18) == 0x1BCA9E73
        &&& shift_byte(0xF0A5BD1D) == 0x2C05E009
        &&& shift_byte(0xF464A0AA) == 0xFE1C21D5
        &&& shift_byte(0xF9278673) == 0x8CF77E06
        &&& shift_byte(0xFDE69BC4) == 0x5EEEBFDA
        &&& shift_byte(0x89B8FD09) == 0xF33819E1
        &&& shift_byte(0x8D79E0BE) == 0x2121D83D
        &&& shift_byte(0x803AC667) == 0x53CA87EE
        &&& shift_byte(0x84FBDBD0) == 0x81D34632
        &&& shift_byte(0x9ABC8BD5) == 0xB61C3848
        &&& shift_byte(0x9E7D9662) == 0x6405F994
        &&& shift_byte(0x933EB0BB) == 0x16EEA647
        &&& shift_byte(0x97FFAD0C) == 0xC4F7679B
        &&& shift_byte(0xAFB010B1) == 0x79705AB3
        &&& shift_byte(0xAB710D06) == 0xAB699B6F
        &&& shift_byte(0xA6322BDF) == 0xD982C4BC
        &&& shift_byte(0xA2F33668) == 0x0B9B0560
        &&& shift_byte(0xBCB4666D) == 0x3C547B1A
        &&& shift_byte(0xB8757BDA) == 0xEE4DBAC6
        &&& shift_byte(0xB5365D03) == 0x9CA6E515
        &&& shift_byte(0xB1F740B4) == 0x4EBF24C9
    }) by (bit_vector);
}

/// Every entry of `T2` is the entry `i` of `T1` shifted by one byte.
pub proof fn lemma_t2(i: int)
    requires
        0 <= i < 256,
    ensures
        T2@[i] == shift_byte(T1@[i]),
{
    assert({
        &&& shift_byte(0x00000000) == 0x00000000
        &&& shift_byte(0xD219C1DC) == 0x01D8AC87
        &&& shift_byte(0xA0F29E0F) == 0x03B1590E
        &&& shift_byte(0x72EB5FD3) == 0x0269F589
        &&& shift_byte(0x452421A9) == 0x0762B21C
        &&& shift_byte(0x973DE075) == 0x06BA1E9B
        &&& shift_byte(0xE5D6BFA6) == 0x04D3EB12
        &&& shift_byte(0x37CF7E7A) == 0x050B4795
        &&& shift_byte(0x8A484352) == 0x0EC56438
        &&& shift_byte(0x5851828E) == 0x0F1DC8BF
        &&& shift_byte(0x2ABADD5D) == 0x0D743D36
        &&& shift_byte(0xF8A31C81) == 0x0CAC91B1
        &&& shift_byte(0xCF6C62FB) == 0x09A7D624
        &&& shift_byte(0x1D75A327) == 0x087F7AA3
        &&& shift_byte(0x6F9EFCF4) == 0x0A168F2A
        &&& shift_byte(0xBD873D28) == 0x0BCE23AD
        &&& shift_byte(0x10519B13) == 0x1D8AC870
        &&& shift_byte(0xC2485ACF) == 0x1C5264F7
        &&& shift_byte(0xB0A3051C) == 0x1E3B917E
        &&& shift_byte(0x62BAC4C0) == 0x1FE33DF9
        &&& shift_byte(0x5575BABA) == 0x1AE87A6C
        &&& shift_byte(0x876C7B66) == 0x1B30D6EB
        &&& shift_byte(0xF58724B5) == 0x19592362
        &&& shift_byte(0x279EE569) == 0x18818FE5
        &&& shift_byte(0x9A19D841) == 0x134FAC48
        &&& shift_byte(0x4800199D) == 0x129700CF
        &&& shift_byte(0x3AEB464E) == 0x10FEF546
        &&& shift_byte(0xE8F28792) == 0x112659C1
        &&& shift_byte(0xDF3DF9E8) == 0x142D1E54
        &&& shift_byte(0x0D243834) == 0x15F5B2D3
        &&& shift_byte(0x7FCF67E7) == 0x179C475A
        &&& shift_byte(0xADD6A63B) == 0x1644EBDD
        &&& shift_byte(0x20A33626) == 0x3B1590E0
        &&& shift_byte(0xF2BAF7FA) == 0x3ACD3C67
        &&& shift_byte(0x8051A829) == 0x38A4C9EE
        &&& shift_byte(0x524869F5) == 0x397C6569
        &&& shift_byte(0x6587178F) == 0x3C7722FC
        &&& shift_byte(0xB79ED653) == 0x3DAF8E7B
        &&& shift_byte(0xC5758980) == 0x3FC67BF2
        &&& shift_byte(0x176C485C) == 0x3E1ED775
        &&& shift_byte(0xAAEB7574) == 0x35D0F4D8
        &&& shift_byte(0x78F2B4A8) == 0x3408585F
        &&& shift_byte(0x0A19EB7B) == 0x3661ADD6
        &&& shift_byte(0xD8002AA7) == 0x37B90151
        &&& shift_byte(0xEFCF54DD) == 0x32B246C4
        &&& shift_byte(0x3DD69501) == 0x336AEA43
        &&& shift_byte(0x4F3DCAD2) == 0x31031FCA
        &&& shift_byte(0x9D240B0E) == 0x30DBB34D
        &&& shift_byte(0x30F2AD35) == 0x269F5890
        &&& shift_byte(0xE2EB6CE9) == 0x2747F417
        &&& shift_byte(0x9000333A) == 0x252E019E
        &&& shift_byte(0x4219F2E6) == 0x24F6AD19
        &&& shift_byte(0x75D68C9C) == 0x21FDEA8C
        &&& shift_byte(0xA7CF4D40) == 0x2025460B
        &&& shift_byte(0xD5241293) == 0x224CB382
        &&& shift_byte(0x073DD34F) == 0x23941F05
        &&& shift_byte(0xBABAEE67) == 0x285A3CA8
        &&& shift_byte(0x68A32FBB) == 0x2982902F
        &&& shift_byte(0x1A487068) == 0x2BEB65A6
        &&& shift_byte(0xC851B1B4) == 0x2A33C921
        &&& shift_byte(0xFF9ECFCE) == 0x2F388EB4
        &&& shift_byte(0x2D870E12) == 0x2EE02233
        &&& shift_byte(0x5F6C51C1) == 0x2C89D7BA
        &&& shift_byte(0x8D75901D) == 0x2D517B3D
        &&& shift_byte(0x41466C4C) == 0x762B21C0
        &&& shift_byte(0x935FAD90) == 0x77F38D47
        &&& shift_byte(0xE1B4F243) == 0x759A78CE
        &&& shift_byte(0x33AD339F) == 0x7442D449
        &&& shift_byte(0x04624DE5) == 0x714993DC
        &&& shift_byte(0xD67B8C39) == 0x70913F5B
        &&& shift_byte(0xA490D3EA) == 0x72F8CAD2
        &&& shift_byte(0x76891236) == 0x73206655
        &&& shift_byte(0xCB0E2F1E) == 0x78EE45F8
        &&& shift_byte(0x1917EEC2) == 0x7936E97F
        &&& shift_byte(0x6BFCB111) == 0x7B5F1CF6
        &&& shift_byte(0xB9E570CD) == 0x7A87B071
        &&& shift_byte(0x8E2A0EB7) == 0x7F8CF7E4
        &&& shift_byte(0x5C33CF6B) == 0x7E545B63
        &&& shift_byte(0x2ED890B8) == 0x7C3DAEEA
        &&& shift_byte(0xFCC15164) == 0x7DE5026D
        &&& shift_byte(0x5117F75F) == 0x6BA1E9B0
        &&& shift_byte(0x830E3683) == 0x6A794537
        &&& shift_byte(0xF1E56950) == 0x6810B0BE
        &&& shift_byte(0x23FCA88C) == 0x69C81C39
        &&& shift_byte(0x1433D6F6) == 0x6CC35BAC
        &&& shift_byte(0xC62A172A) == 0x6D1BF72B
        &&& shift_byte(0xB4C148F9) == 0x6F7202A2
        &&& shift_byte(0x66D88925) == 0x6EAAAE25
        &&& shift_byte(0xDB5FB40D) == 0x65648D88
        &&& shift_byte(0x094675D1) == 0x64BC210F
        &&& shift_byte(0x7BAD2A02) == 0x66D5D486
        &&& shift_byte(0xA9B4EBDE) == 0x670D7801
        &&& shift_byte(0x9E7B95A4) == 0x62063F94
        &&& shift_byte(0x4C625478) == 0x63DE9313
        &&& shift_byte(0x3E890BAB) == 0x61B7669A
        &&& shift_byte(0xEC90CA77) == 0x606FCA1D
        &&& shift_byte(0x61E55A6A) == 0x4D3EB120
        &&& shift_byte(0xB3FC9BB6) == 0x4CE61DA7
        &&& shift_byte(0xC117C465) == 0x4E8FE82E
        &&& shift_byte(0x130E05B9) == 0x4F5744A9
        &&& shift_byte(0x24C17BC3) == 0x4A5C033C
        &&& shift_byte(0xF6D8BA1F) == 0x4B84AFBB
        &&& shift_byte(0x8433E5CC) == 0x49ED5A32
        &&& shift_byte(0x562A2410) == 0x4835F6B5
        &&& shift_byte(0xEBAD1938) == 0x43FBD518
        &&& shift_byte(0x39B4D8E4) == 0x4223799F
        &&& shift_byte(0x4B5F8737) == 0x404A8C16
        &&& shift_byte(0x994646EB) == 0x41922091
        &&& shift_byte(0xAE893891) == 0x44996704
        &&& shift_byte(0x7C90F94D) == 0x4541CB83
        &&& shift_byte(0x0E7BA69E) == 0x47283E0A
        &&& shift_byte(0xDC626742) == 0x46F0928D
        &&& shift_byte(0x71B4C179) == 0x50B47950
        &&& shift_byte(0xA3AD00A5) == 0x516CD5D7
        &&& shift_byte(0xD1465F76) == 0x5305205E
        &&& shift_byte(0x035F9EAA) == 0x52DD8CD9
        &&& shift_byte(0x3490E0D0) == 0x57D6CB4C
        &&& shift_byte(0xE689210C) == 0x560E67CB
        &&& shift_byte(0x94627EDF) == 0x54679242
        &&& shift_byte(0x467BBF03) == 0x55BF3EC5
        &&& shift_byte(0xFBFC822B) == 0x5E711D68
        &&& shift_byte(0x29E543F7) == 0x5FA9B1EF
        &&& shift_byte(0x5B0E1C24) == 0x5DC04466
        &&& shift_byte(0x8917DDF8) == 0x5C18E8E1
        &&& shift_byte(0xBED8A382) == 0x5913AF74
        &&& shift_byte(0x6CC1625E) == 0x58CB03F3
        &&& shift_byte(0x1E2A3D8D) == 0x5AA2F67A
        &&& shift_byte(0xCC33FC51) == 0x5B7A5AFD
        &&& shift_byte(0x828CD898) == 0xEC564380
        &&& shift_byte(0x50951944) == 0xED8EEF07
        &&& shift_byte(0x227E4697) == 0xEFE71A8E
        &&& shift_byte(0xF067874B) == 0xEE3FB609
        &&& shift_byte(0xC7A8F931) == 0xEB34F19C
        &&& shift_byte(0x15B138ED) == 0xEAEC5D1B
        &&& shift_byte(0x675A673E) == 0xE885A892
        &&& shift_byte(0xB543A6E2) == 0xE95D0415
        &&& shift_byte(0x08C49BCA) == 0xE29327B8
        &&& shift_byte(0xDADD5A16) == 0xE34B8B3F
        &&& shift_byte(0xA83605C5) == 0xE1227EB6
        &&& shift_byte(0x7A2FC419) == 0xE0FAD231
        &&& shift_byte(0x4DE0BA63) == 0xE5F195A4
        &&& shift_byte(0x9FF97BBF) == 0xE4293923
        &&& shift_byte(0xED12246C) == 0xE640CCAA
        &&& shift_byte(0x3F0BE5B0) == 0xE798602D
        &&& shift_byte(0x92DD438B) == 0xF1DC8BF0
        &&& shift_byte(0x40C48257) == 0xF0042777
        &&& shift_byte(0x322FDD84) == 0xF26DD2FE
        &&& shift_byte(0xE0361C58) == 0xF3B57E79
        &&& shift_byte(0xD7F96222) == 0xF6BE39EC
        &&& shift_byte(0x05E0A3FE) == 0xF766956B
        &&& shift_byte(0x770BFC2D) == 0xF50F60E2
        &&& shift_byte(0xA5123DF1) == 0xF4D7CC65
        &&& shift_byte(0x189500D9) == 0xFF19EFC8
        &&& shift_byte(0xCA8CC105) == 0xFEC1434F
        &&& shift_byte(0xB8679ED6) == 0xFCA8B6C6
        &&& shift_byte(0x6A7E5F0A) == 0xFD701A41
        &&& shift_byte(0x5DB12170) == 0xF87B5DD4
        &&& shift_byte(0x8FA8E0AC) == 0xF9A3F153
        &&& shift_byte(0xFD43BF7F) == 0xFBCA04DA
        &&& shift_byte(0x2F5A7EA3) == 0xFA12A85D
        &&& shift_byte(0xA22FEEBE) == 0xD743D360
        &&& shift_byte(0x70362F62) == 0xD69B7FE7
        &&& shift_byte(0x02DD70B1) == 0xD4F28A6E
        &&& shift_byte(0xD0C4B16D) == 0xD52A26E9
        &&& shift_byte(0xE70BCF17) == 0xD021617C
        &&& shift_byte(0x35120ECB) == 0xD1F9CDFB
        &&& shift_byte(0x47F95118) == 0xD3903872
        &&& shift_byte(0x95E090C4) == 0xD24894F5
        &&& shift_byte(0x2867ADEC) == 0xD986B758
        &&& shift_byte(0xFA7E6C30) == 0xD85E1BDF
        &&& shift_byte(0x889533E3) == 0xDA37EE56
        &&& shift_byte(0x5A8CF23F) == 0xDBEF42D1
        &&& shift_byte(0x6D438C45) == 0xDEE40544
        &&& shift_byte(0xBF5A4D99) == 0xDF3CA9C3
        &&& shift_byte(0xCDB1124A) == 0xDD555C4A
        &&& shift_byte(0x1FA8D396) == 0xDC8DF0CD
        &&& shift_byte(0xB27E75AD) == 0xCAC91B10
        &&& shift_byte(0x6067B471) == 0xCB11B797
        &&& shift_byte(0x128CEBA2) == 0xC978421E
        &&& shift_byte(0xC0952A7E) == 0xC8A0EE99
        &&& shift_byte(0xF75A5404) == 0xCDABA90C
        &&& shift_byte(0x254395D8) == 0xCC73058B
        &&& shift_byte(0x57A8CA0B) == 0xCE1AF002
        &&& shift_byte(0x85B10BD7) == 0xCFC25C85
        &&& shift_byte(0x383636FF) == 0xC40C7F28
        &&& shift_byte(0xEA2FF723) == 0xC5D4D3AF
        &&& shift_byte(0x98C4A8F0) == 0xC7BD2626
        &&& shift_byte(0x4ADD692C) == 0xC6658AA1
        &&& shift_byte(0x7D121756) == 0xC36ECD34
        &&& shift_byte(0xAF0BD68A) == 0xC2B661B3
        &&& shift_byte(0xDDE08959) == 0xC0DF943A
        &&& shift_byte(0x0FF94885) == 0xC10738BD
        &&& shift_byte(0xC3CAB4D4) == 0x9A7D6240
        &&& shift_byte(0x11D37508) == 0x9BA5CEC7
        &&& shift_byte(0x63382ADB) == 0x99CC3B4E
        &&& shift_byte(0xB121EB07) == 0x981497C9
        &&& shift_byte(0x86EE957D) == 0x9D1FD05C
        &&& shift_byte(0x54F754A1) == 0x9CC77CDB
        &&& shift_byte(0x261C0B72) == 0x9EAE8952
        &&& shift_byte(0xF405CAAE) == 0x9F7625D5
        &&& shift_byte(0x4982F786) == 0x94B80678
        &&& shift_byte(0x9B9B365A) == 0x9560AAFF
        &&& shift_byte(0xE9706989) == 0x97095F76
        &&& shift_byte(0x3B69A855) == 0x96D1F3F1
        &&& shift_byte(0x0CA6D62F) == 0x93DAB464
        &&& shift_byte(0xDEBF17F3) == 0x920218E3
        &&& shift_byte(0xAC544820) == 0x906BED6A
        &&& shift_byte(0x7E4D89FC) == 0x91B341ED
        &&& shift_byte(0xD39B2FC7) == 0x87F7AA30
        &&& shift_byte(0x0182EE1B) == 0x862F06B7
        &&& shift_byte(0x7369B1C8) == 0x8446F33E
        &&& shift_byte(0xA1707014) == 0x859E5FB9
        &&& shift_byte(0x96BF0E6E) == 0x8095182C
        &&& shift_byte(0x44A6CFB2) == 0x814DB4AB
        &&& shift_byte(0x364D9061) == 0x83244122
        &&& shift_byte(0xE45451BD) == 0x82FCEDA5
        &&& shift_byte(0x59D36C95) == 0x8932CE08
        &&& shift_byte(0x8BCAAD49) == 0x88EA628F
        &&& shift_byte(0xF921F29A) == 0x8A839706
        &&& shift_byte(0x2B383346) == 0x8B5B3B81
        &&& shift_byte(0x1CF74D3C) == 0x8E507C14
        &&& shift_byte(0xCEEE8CE0) == 0x8F88D093
        &&& shift_byte(0xBC05D333) == 0x8DE1251A
        &&& shift_byte(0x6E1C12EF) == 0x8C39899D
        &&& shift_byte(0xE36982F2) == 0xA168F2A0
        &&& shift_byte(0x3170432E) == 0xA0B05E27
        &&& shift_byte(0x439B1CFD) == 0xA2D9ABAE
        &&& shift_byte(0x9182DD21) == 0xA3010729
        &&& shift_byte(0xA64DA35B) == 0xA60A40BC
        &&& shift_byte(0x74546287) == 0xA7D2EC3B
        &&& shift_byte(0x06BF3D54) == 0xA5BB19B2
        &&& shift_byte(0xD4A6FC88) == 0xA463B535
        &&& shift_byte(0x6921C1A0) == 0xAFAD9698
        &&& shift_byte(0xBB38007C) == 0xAE753A1F
        &&& shift_byte(0xC9D35FAF) == 0xAC1CCF96
        &&& shift_byte(0x1BCA9E73) == 0xADC46311
        &&& shift_byte(0x2C05E009) == 0xA8CF2484
        &&& shift_byte(0xFE1C21D5) == 0xA9178803
        &&& shift_byte(0x8CF77E06) == 0xAB7E7D8A
        &&& shift_byte(0x5EEEBFDA) == 0xAAA6D10D
        &&& shift_byte(0xF33819E1) == 0xBCE23AD0
        &&& shift_byte(0x2121D83D) == 0xBD3A9657
        &&& shift_byte(0x53CA87EE) == 0xBF5363DE
        &&& shift_byte(0x81D34632) == 0xBE8BCF59
        &&& shift_byte(0xB61C3848) == 0xBB8088CC
        &&& shift_byte(0x6405F994) == 0xBA58244B
        &&& shift_byte(0x16EEA647) == 0xB831D1C2
        &&& shift_byte(0xC4F7679B) == 0xB9E97D45
        &&& shift_byte(0x79705AB3) == 0xB2275EE8
        &&& shift_byte(0xAB699B6F) == 0xB3FFF26F
        &&& shift_byte(0xD982C4BC) == 0xB19607E6
        &&& shift_byte(0x0B9B0560) == 0xB04EAB61
        &&& shift_byte(0x3C547B1A) == 0xB545ECF4
        &&& shift_byte(0xEE4DBAC6) == 0xB49D4073
        &&& shift_byte(0x9CA6E515) == 0xB6F4B5FA
        &&& shift_byte(0x4EBF24C9) == 0xB72C197D
    }) by (bit_vector);
}

/// Every entry of `T3` is the entry `i` of `T2` shifted by one byte.
pub proof fn lemma_t3(i: int)
    requires
        0 <= i < 256,
    ensures
        T3@[i] == shift_byte(T2@[i]),
{
    assert({
        &&& shift_byte(0x00000000) == 0x00000000
        &&& shift_byte(0x01D8AC87) == 0xDC6D9AB7
        &&& shift_byte(0x03B1590E) == 0xBC1A28D9
        &&& shift_byte(0x0269F589) == 0x6077B26E
        &&& shift_byte(0x0762B21C) == 0x7CF54C05
        &&& shift_byte(0x06BA1E9B) == 0xA098D6B2
        &&& shift_byte(0x04D3EB12) == 0xC0EF64DC
        &&& shift_byte(0x050B4795) == 0x1C82FE6B
        &&& shift_byte(0x0EC56438) == 0xF9EA980A
        &&& shift_byte(0x0F1DC8BF) == 0x258702BD
        &&& shift_byte(0x0D743D36) == 0x45F0B0D3
        &&& shift_byte(0x0CAC91B1) == 0x999D2A64
        &&& shift_byte(0x09A7D624) == 0x851FD40F
        &&& shift_byte(0x087F7AA3) == 0x59724EB8
        &&& shift_byte(0x0A168F2A) == 0x3905FCD6
        &&& shift_byte(0x0BCE23AD) == 0xE5686661
        &&& shift_byte(0x1D8AC870) == 0xF7142DA3
        &&& shift_byte(0x1C5264F7) == 0x2B79B714
        &&& shift_byte(0x1E3B917E) == 0x4B0E057A
        &&& shift_byte(0x1FE33DF9) == 0x97639FCD
        &&& shift_byte(0x1AE87A6C) == 0x8BE161A6
        &&& shift_byte(0x1B30D6EB) == 0x578CFB11
        &&& shift_byte(0x19592362) == 0x37FB497F
        &&& shift_byte(0x18818FE5) == 0xEB96D3C8
        &&& shift_byte(0x134FAC48) == 0x0EFEB5A9
        &&& shift_byte(0x129700CF) == 0xD2932F1E
        &&& shift_byte(0x10FEF546) == 0xB2E49D70
        &&& shift_byte(0x112659C1) == 0x6E8907C7
        &&& shift_byte(0x142D1E54) == 0x720BF9AC
        &&& shift_byte(0x15F5B2D3) == 0xAE66631B
        &&& shift_byte(0x179C475A) == 0xCE11D175
        &&& shift_byte(0x1644EBDD) == 0x127C4BC2
        &&& shift_byte(0x3B1590E0) == 0xEAE946F1
        &&& shift_byte(0x3ACD3C67) == 0x3684DC46
        &&& shift_byte(0x38A4C9EE) == 0x56F36E28
        &&& shift_byte(0x397C6569) == 0x8A9EF49F
        &&& shift_byte(0x3C7722FC) == 0x961C0AF4
        &&& shift_byte(0x3DAF8E7B) == 0x4A719043
        &&& shift_byte(0x3FC67BF2) == 0x2A06222D
        &&& shift_byte(0x3E1ED775) == 0xF66BB89A
        &&& shift_byte(0x35D0F4D8) == 0x1303DEFB
        &&& shift_byte(0x3408585F) == 0xCF6E444C
        &&& shift_byte(0x3661ADD6) == 0xAF19F622
        &&& shift_byte(0x37B90151) == 0x73746C95
        &&& shift_byte(0x32B246C4) == 0x6FF692FE
        &&& shift_byte(0x336AEA43) == 0xB39B0849
        &&& shift_byte(0x31031FCA) == 0xD3ECBA27
        &&& shift_byte(0x30DBB34D) == 0x0F812090
        &&& shift_byte(0x269F5890) == 0x1DFD6B52
        &&& shift_byte(0x2747F417) == 0xC190F1E5
        &&& shift_byte(0x252E019E) == 0xA1E7438B
        &&& shift_byte(0x24F6AD19) == 0x7D8AD93C
        &&& shift_byte(0x21FDEA8C) == 0x61082757
        &&& shift_byte(0x2025460B) == 0xBD65BDE0
        &&& shift_byte(0x224CB382) == 0xDD120F8E
        &&& shift_byte(0x23941F05) == 0x017F9539
        &&& shift_byte(0x285A3CA8) == 0xE417F358
        &&& shift_byte(0x2982902F) == 0x387A69EF
        &&& shift_byte(0x2BEB65A6) == 0x580DDB81
        &&& shift_byte(0x2A33C921) == 0x84604136
        &&& shift_byte(0x2F388EB4) == 0x98E2BF5D
        &&& shift_byte(0x2EE02233) == 0x448F25EA
        &&& shift_byte(0x2C89D7BA) == 0x24F89784
        &&& shift_byte(0x2D517B3D) == 0xF8950D33
        &&& shift_byte(0x762B21C0) == 0xD1139055
        &&& shift_byte(0x77F38D47) == 0x0D7E0AE2
        &&& shift_byte(0x759A78CE) == 0x6D09B88C
        &&& shift_byte(0x7442D449) == 0xB164223B
        &&& shift_byte(0x714993DC) == 0xADE6DC50
        &&& shift_byte(0x70913F5B) == 0x718B46E7
        &&& shift_byte(0x72F8CAD2) == 0x11FCF489
        &&& shift_byte(0x73206655) == 0xCD916E3E
        &&& shift_byte(0x78EE45F8) == 0x28F9085F
        &&& shift_byte(0x7936E97F) == 0xF49492E8
        &&& shift_byte(0x7B5F1CF6) == 0x94E32086
        &&& shift_byte(0x7A87B071) == 0x488EBA31
        &&& shift_byte(0x7F8CF7E4) == 0x540C445A
        &&& shift_byte(0x7E545B63) == 0x8861DEED
        &&& shift_byte(0x7C3DAEEA) == 0xE8166C83
        &&& shift_byte(0x7DE5026D) == 0x347BF634
        &&& shift_byte(0x6BA1E9B0) == 0x2607BDF6
        &&& shift_byte(0x6A794537) == 0xFA6A2741
        &&& shift_byte(0x6810B0BE) == 0x9A1D952F
        &&& shift_byte(0x69C81C39) == 0x46700F98
        &&& shift_byte(0x6CC35BAC) == 0x5AF2F1F3
        &&& shift_byte(0x6D1BF72B) == 0x869F6B44
        &&& shift_byte(0x6F7202A2) == 0xE6E8D92A
        &&& shift_byte(0x6EAAAE25) == 0x3A85439D
        &&& shift_byte(0x65648D88) == 0xDFED25FC
        &&& shift_byte(0x64BC210F) == 0x0380BF4B
        &&& shift_byte(0x66D5D486) == 0x63F70D25
        &&& shift_byte(0x670D7801) == 0xBF9A9792
        &&& shift_byte(0x62063F94) == 0xA31869F9
        &&& shift_byte(0x63DE9313) == 0x7F75F34E
        &&& shift_byte(0x61B7669A) == 0x1F024120
        &&& shift_byte(0x606FCA1D) == 0xC36FDB97
        &&& shift_byte(0x4D3EB120) == 0x3BFAD6A4
        &&& shift_byte(0x4CE61DA7) == 0xE7974C13
        &&& shift_byte(0x4E8FE82E) == 0x87E0FE7D
        &&& shift_byte(0x4F5744A9) == 0x5B8D64CA
        &&& shift_byte(0x4A5C033C) == 0x470F9AA1
        &&& shift_byte(0x4B84AFBB) == 0x9B620016
        &&& shift_byte(0x49ED5A32) == 0xFB15B278
        &&& shift_byte(0x4835F6B5) == 0x277828CF
        &&& shift_byte(0x43FBD518) == 0xC2104EAE
        &&& shift_byte(0x4223799F) == 0x1E7DD419
        &&& shift_byte(0x404A8C16) == 0x7E0A6677
        &&& shift_byte(0x41922091) == 0xA267FCC0
        &&& shift_byte(0x44996704) == 0xBEE502AB
        &&& shift_byte(0x4541CB83) == 0x6288981C
        &&& shift_byte(0x47283E0A) == 0x02FF2A72
        &&& shift_byte(0x46F0928D) == 0xDE92B0C5
        &&& shift_byte(0x50B47950) == 0xCCEEFB07
        &&& shift_byte(0x516CD5D7) == 0x108361B0
        &&& shift_byte(0x5305205E) == 0x70F4D3DE
        &&& shift_byte(0x52DD8CD9) == 0xAC994969
        &&& shift_byte(0x57D6CB4C) == 0xB01BB702
        &&& shift_byte(0x560E67CB) == 0x6C762DB5
        &&& shift_byte(0x54679242) == 0x0C019FDB
        &&& shift_byte(0x55BF3EC5) == 0xD06C056C
        &&& shift_byte(0x5E711D68) == 0x3504630D
        &&& shift_byte(0x5FA9B1EF) == 0xE969F9BA
        &&& shift_byte(0x5DC04466) == 0x891E4BD4
        &&& shift_byte(0x5C18E8E1) == 0x5573D163
        &&& shift_byte(0x5913AF74) == 0x49F12F08
        &&& shift_byte(0x58CB03F3) == 0x959CB5BF
        &&& shift_byte(0x5AA2F67A) == 0xF5EB07D1
        &&& shift_byte(0x5B7A5AFD) == 0x29869D66
        &&& shift_byte(0xEC564380) == 0xA6E63D1D
        &&& shift_byte(0xED8EEF07) == 0x7A8BA7AA
        &&& shift_byte(0xEFE71A8E) == 0x1AFC15C4
        &&& shift_byte(0xEE3FB609) == 0xC6918F73
        &&& shift_byte(0xEB34F19C) == 0xDA137118
        &&& shift_byte(0xEAEC5D1B) == 0x067EEBAF
        &&& shift_byte(0xE885A892) == 0x660959C1
        &&& shift_byte(0xE95D0415) == 0xBA64C376
        &&& shift_byte(0xE29327B8) == 0x5F0CA517
        &&& shift_byte(0xE34B8B3F) == 0x83613FA0
        &&& shift_byte(0xE1227EB6) == 0xE3168DCE
        &&& shift_byte(0xE0FAD231) == 0x3F7B1779
        &&& shift_byte(0xE5F195A4) == 0x23F9E912
        &&& shift_byte(0xE4293923) == 0xFF9473A5
        &&& shift_byte(0xE640CCAA) == 0x9FE3C1CB
        &&& shift_byte(0xE798602D) == 0x438E5B7C
        &&& shift_byte(0xF1DC8BF0) == 0x51F210BE
        &&& shift_byte(0xF0042777) == 0x8D9F8A09
        &&& shift_byte(0xF26DD2FE) == 0xEDE83867
        &&& shift_byte(0xF3B57E79) == 0x3185A2D0
        &&& shift_byte(0xF6BE39EC) == 0x2D075CBB
        &&& shift_byte(0xF766956B) == 0xF16AC60C
        &&& shift_byte(0xF50F60E2) == 0x911D7462
        &&& shift_byte(0xF4D7CC65) == 0x4D70EED5
        &&& shift_byte(0xFF19EFC8) == 0xA81888B4
        &&& shift_byte(0xFEC1434F) == 0x74751203
        &&& shift_byte(0xFCA8B6C6) == 0x1402A06D
        &&& shift_byte(0xFD701A41) == 0xC86F3ADA
        &&& shift_byte(0xF87B5DD4) == 0xD4EDC4B1
        &&& shift_byte(0xF9A3F153) == 0x08805E06
        &&& shift_byte(0xFBCA04DA) == 0x68F7EC68
        &&& shift_byte(0xFA12A85D) == 0xB49A76DF
        &&& shift_byte(0xD743D360) == 0x4C0F7BEC
        &&& shift_byte(0xD69B7FE7) == 0x9062E15B
        &&& shift_byte(0xD4F28A6E) == 0xF0155335
        &&& shift_byte(0xD52A26E9) == 0x2C78C982
        &&& shift_byte(0xD021617C) == 0x30FA37E9
        &&& shift_byte(0xD1F9CDFB) == 0xEC97AD5E
        &&& shift_byte(0xD3903872) == 0x8CE01F30
        &&& shift_byte(0xD24894F5) == 0x508D8587
        &&& shift_byte(0xD986B758) == 0xB5E5E3E6
        &&& shift_byte(0xD85E1BDF) == 0x69887951
        &&& shift_byte(0xDA37EE56) == 0x09FFCB3F
        &&& shift_byte(0xDBEF42D1) == 0xD5925188
        &&& shift_byte(0xDEE40544) == 0xC910AFE3
        &&& shift_byte(0xDF3CA9C3) == 0x157D3554
        &&& shift_byte(0xDD555C4A) == 0x750A873A
        &&& shift_byte(0xDC8DF0CD) == 0xA9671D8D
        &&& shift_byte(0xCAC91B10) == 0xBB1B564F
        &&& shift_byte(0xCB11B797) == 0x6776CCF8
        &&& shift_byte(0xC978421E) == 0x07017E96
        &&& shift_byte(0xC8A0EE99) == 0xDB6CE421
        &&& shift_byte(0xCDABA90C) == 0xC7EE1A4A
        &&& shift_byte(0xCC73058B) == 0x1B8380FD
        &&& shift_byte(0xCE1AF002) == 0x7BF43293
        &&& shift_byte(0xCFC25C85) == 0xA799A824
        &&& shift_byte(0xC40C7F28) == 0x42F1CE45
        &&& shift_byte(0xC5D4D3AF) == 0x9E9C54F2
        &&& shift_byte(0xC7BD2626) == 0xFEEBE69C
        &&& shift_byte(0xC6658AA1) == 0x22867C2B
        &&& shift_byte(0xC36ECD34) == 0x3E048240
        &&& shift_byte(0xC2B661B3) == 0xE26918F7
        &&& shift_byte(0xC0DF943A) == 0x821EAA99
        &&& shift_byte(0xC10738BD) == 0x5E73302E
        &&& shift_byte(0x9A7D6240) == 0x77F5AD48
        &&& shift_byte(0x9BA5CEC7) == 0xAB9837FF
        &&& shift_byte(0x99CC3B4E) == 0xCBEF8591
        &&& shift_byte(0x981497C9) == 0x17821F26
        &&& shift_byte(0x9D1FD05C) == 0x0B00E14D
        &&& shift_byte(0x9CC77CDB) == 0xD76D7BFA
        &&& shift_byte(0x9EAE8952) == 0xB71AC994
        &&& shift_byte(0x9F7625D5) == 0x6B775323
        &&& shift_byte(0x94B80678) == 0x8E1F3542
        &&& shift_byte(0x9560AAFF) == 0x5272AFF5
        &&& shift_byte(0x97095F76) == 0x32051D9B
        &&& shift_byte(0x96D1F3F1) == 0xEE68872C
        &&& shift_byte(0x93DAB464) == 0xF2EA7947
        &&& shift_byte(0x920218E3) == 0x2E87E3F0
        &&& shift_byte(0x906BED6A) == 0x4EF0519E
        &&& shift_byte(0x91B341ED) == 0x929DCB29
        &&& shift_byte(0x87F7AA30) == 0x80E180EB
        &&& shift_byte(0x862F06B7) == 0x5C8C1A5C
        &&& shift_byte(0x8446F33E) == 0x3CFBA832
        &&& shift_byte(0x859E5FB9) == 0xE0963285
        &&& shift_byte(0x8095182C) == 0xFC14CCEE
        &&& shift_byte(0x814DB4AB) == 0x20795659
        &&& shift_byte(0x83244122) == 0x400EE437
        &&& shift_byte(0x82FCEDA5) == 0x9C637E80
        &&& shift_byte(0x8932CE08) == 0x790B18E1
        &&& shift_byte(0x88EA628F) == 0xA5668256
        &&& shift_byte(0x8A839706) == 0xC5113038
        &&& shift_byte(0x8B5B3B81) == 0x197CAA8F
        &&& shift_byte(0x8E507C14) == 0x05FE54E4
        &&& shift_byte(0x8F88D093) == 0xD993CE53
        &&& shift_byte(0x8DE1251A) == 0xB9E47C3D
        &&& shift_byte(0x8C39899D) == 0x6589E68A
        &&& shift_byte(0xA168F2A0) == 0x9D1CEBB9
        &&& shift_byte(0xA0B05E27) == 0x4171710E
        &&& shift_byte(0xA2D9ABAE) == 0x2106C360
        &&& shift_byte(0xA3010729) == 0xFD6B59D7
        &&& shift_byte(0xA60A40BC) == 0xE1E9A7BC
        &&& shift_byte(0xA7D2EC3B) == 0x3D843D0B
        &&& shift_byte(0xA5BB19B2) == 0x5DF38F65
        &&& shift_byte(0xA463B535) == 0x819E15D2
        &&& shift_byte(0xAFAD9698) == 0x64F673B3
        &&& shift_byte(0xAE753A1F) == 0xB89BE904
        &&& shift_byte(0xAC1CCF96) == 0xD8EC5B6A
        &&& shift_byte(0xADC46311) == 0x0481C1DD
        &&& shift_byte(0xA8CF2484) == 0x18033FB6
        &&& shift_byte(0xA9178803) == 0xC46EA501
        &&& shift_byte(0xAB7E7D8A) == 0xA419176F
        &&& shift_byte(0xAAA6D10D) == 0x78748DD8
        &&& shift_byte(0xBCE23AD0) == 0x6A08C61A
        &&& shift_byte(0xBD3A9657) == 0xB6655CAD
        &&& shift_byte(0xBF5363DE) == 0xD612EEC3
        &&& shift_byte(0xBE8BCF59) == 0x0A7F7474
        &&& shift_byte(0xBB8088CC) == 0x16FD8A1F
        &&& shift_byte(0xBA58244B) == 0xCA9010A8
        &&& shift_byte(0xB831D1C2) == 0xAAE7A2C6
        &&& shift_byte(0xB9E97D45) == 0x768A3871
        &&& shift_byte(0xB2275EE8) == 0x93E25E10
        &&& shift_byte(0xB3FFF26F) == 0x4F8FC4A7
        &&& shift_byte(0xB19607E6) == 0x2FF876C9
        &&& shift_byte(0xB04EAB61) == 0xF395EC7E
        &&& shift_byte(0xB545ECF4) == 0xEF171215
        &&& shift_byte(0xB49D4073) == 0x337A88A2
        &&& shift_byte(0xB6F4B5FA) == 0x530D3ACC
        &&& shift_byte(0xB72C197D) == 0x8F60A07B
    }) by (bit_vector);
}

} // verus!
