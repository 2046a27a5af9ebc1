use zip_rs::miniz::inflate::{
    decompress, decompress_raw, decompress_to_buffer, InflateDecoder, InflateError, InflateFlags,
    InflateStatus,
};

fn ruler(len: usize) -> Vec<u8> {
    (1..=len as u32).map(|k| k.trailing_zeros() as u8).collect()
}

fn dynamic_stream() -> Vec<u8> {
    vec![
        0x78, 0xda, 0x15, 0x91, 0x51, 0x96, 0x85, 0x30, 0x08, 0x43, 0xff, 0x5d, 0x05, 0x5b, 0x0b, 0x35,
        0x2a, 0x6a, 0x45, 0x2d, 0xea, 0xd3, 0xd5, 0x0f, 0xd3, 0x2f, 0xce, 0x29, 0x09, 0xdc, 0x40, 0xd1,
        0x61, 0x07, 0xee, 0x15, 0x74, 0xc8, 0x5c, 0x80, 0x69, 0x04, 0x51, 0x27, 0xdc, 0x1b, 0xa4, 0x77,
        0x77, 0xc1, 0xe6, 0x03, 0xba, 0x1e, 0xf5, 0xa7, 0x1c, 0x75, 0xc5, 0xc6, 0x7a, 0x9f, 0x0a, 0xdf,
        0xbc, 0x64, 0x63, 0xc3, 0x06, 0x2f, 0x76, 0xae, 0x53, 0xd0, 0x5c, 0x8c, 0x64, 0x68, 0x0b, 0x66,
        0xdb, 0x62, 0x1f, 0x9b, 0xd1, 0x3b, 0x60, 0x1e, 0x35, 0xa8, 0x62, 0x23, 0xe4, 0x40, 0xd4, 0x2d,
        0xbe, 0x9b, 0x6c, 0x74, 0xf3, 0xcb, 0xf0, 0x40, 0x68, 0xed, 0x00, 0x5a, 0xe3, 0xbe, 0x9d, 0xb7,
        0xe5, 0xcf, 0x77, 0x10, 0x69, 0xa6, 0x0e, 0x43, 0x49, 0x69, 0x70, 0x18, 0xe4, 0x35, 0xa8, 0x0d,
        0x95, 0x9f, 0xde, 0xd3, 0x5b, 0xd9, 0x46, 0x9e, 0x1f, 0xa5, 0x57, 0xa8, 0xf6, 0x47, 0x0f, 0x7b,
        0x5c, 0x49, 0xe8, 0xb8, 0xd2, 0x37, 0x8a, 0xb6, 0xdf, 0x2c, 0xbe, 0x9f, 0x01, 0x93, 0x37, 0xe4,
        0x3d, 0xaf, 0x3a, 0xe4, 0x83, 0x25, 0x4e, 0x41, 0x31, 0xfd, 0x47, 0x06, 0xb6, 0x44, 0x92, 0xff,
        0xea, 0x2d, 0x9e, 0xf3, 0x98, 0x35, 0x0d, 0xf8, 0x59, 0x67, 0x66, 0xe9, 0x86, 0x60, 0x92, 0x3d,
        0x4d, 0x17, 0x14, 0x91, 0x85, 0xda, 0x56, 0x41, 0x2c, 0xec, 0xf6, 0x17, 0xed, 0xc7, 0x25, 0x07,
        0x31, 0xfa, 0x75, 0x8d, 0x99, 0xde, 0xfb, 0x15, 0xf1, 0x2b, 0x17, 0xef, 0x21, 0xae, 0xbe, 0x2c,
        0x49, 0x82, 0xd4, 0x1b, 0x4b, 0xf3, 0x64, 0xbc, 0xa4, 0x51, 0x3a, 0xa2, 0x47, 0x6f, 0x85, 0x25,
        0xe3, 0xf2, 0x27, 0x97, 0xdb, 0x79, 0xed, 0x78, 0x8e, 0xdc, 0x22, 0x5a, 0x14, 0xfb, 0x74, 0x0a,
        0x27, 0x2e, 0xe9, 0xda, 0x60, 0x43, 0x08, 0x9a, 0x6a, 0x22, 0x66, 0xb6, 0xd7, 0xae, 0x7e, 0x7b,
        0x67, 0x87, 0x50, 0x6b, 0x55, 0xe0, 0xea, 0xda, 0x8e, 0x25, 0x44, 0xa7, 0xb7, 0xdc, 0x6f, 0x01,
        0x0b, 0x67, 0xa6, 0x98, 0xeb, 0xf8, 0x28, 0x24, 0x28, 0x76, 0xf8, 0x2d, 0xcb, 0x78, 0xcb, 0x37,
        0xeb, 0xaa, 0xcb, 0x8c, 0xd7, 0x22, 0x43, 0x8d, 0x2b, 0x3d, 0xcd, 0x1b, 0x2a, 0x78, 0x2e, 0x4b,
        0xb5, 0x08, 0x7c, 0xf5, 0x5f, 0x8f, 0xc0, 0x6c, 0x15, 0x21, 0x82, 0xff, 0xd3, 0xcd, 0x3e, 0x97,
        0x46, 0x9b, 0xd7, 0xcb, 0x66, 0x61, 0x5b, 0xbe, 0x4f, 0x84, 0x52, 0x45, 0xca, 0x63, 0x3a, 0x62,
        0xc8, 0x84, 0x0e, 0x4e, 0x28, 0x07, 0x23, 0xe7, 0xa9, 0xb4, 0xfd, 0xa0, 0xe6, 0x81, 0xfe, 0x00,
        0xc9, 0x19, 0xe7, 0x95,
    ]
}

fn dynamic_data() -> Vec<u8> {
    vec![
        0x65, 0x20, 0x62, 0x66, 0x70, 0x61, 0x61, 0x76, 0x6c, 0x61, 0x65, 0x6f, 0x61, 0x20, 0x6a, 0x63,
        0x61, 0x61, 0x68, 0x67, 0x61, 0x65, 0x61, 0x6d, 0x68, 0x61, 0x76, 0x6e, 0x61, 0x20, 0x64, 0x6f,
        0x6f, 0x6f, 0x20, 0x61, 0x6e, 0x6f, 0x66, 0x61, 0x0a, 0x64, 0x61, 0x6d, 0x78, 0x62, 0x65, 0x67,
        0x62, 0x6c, 0x61, 0x6e, 0x65, 0x6d, 0x76, 0x72, 0x62, 0x61, 0x6f, 0x6e, 0x6f, 0x63, 0x65, 0x61,
        0x6d, 0x73, 0x61, 0x6e, 0x61, 0x6f, 0x63, 0x69, 0x72, 0x6c, 0x68, 0x74, 0x65, 0x69, 0x6f, 0x20,
        0x69, 0x65, 0x65, 0x65, 0x74, 0x62, 0x73, 0x74, 0x65, 0x61, 0x6e, 0x65, 0x6b, 0x69, 0x7a, 0x65,
        0x73, 0x69, 0x65, 0x6f, 0x0a, 0x61, 0x61, 0x6a, 0x67, 0x62, 0x74, 0x65, 0x62, 0x20, 0x69, 0x67,
        0x61, 0x20, 0x71, 0x61, 0x74, 0x6d, 0x6e, 0x74, 0x7a, 0x76, 0x65, 0x65, 0x73, 0x65, 0x6f, 0x69,
        0x6f, 0x75, 0x69, 0x61, 0x77, 0x61, 0x20, 0x65, 0x69, 0x73, 0x71, 0x61, 0x61, 0x73, 0x73, 0x65,
        0x70, 0x6e, 0x72, 0x76, 0x69, 0x65, 0x73, 0x65, 0x7a, 0x71, 0x65, 0x61, 0x20, 0x69, 0x65, 0x62,
        0x6f, 0x61, 0x69, 0x61, 0x63, 0x74, 0x65, 0x62, 0x74, 0x65, 0x66, 0x66, 0x20, 0x79, 0x69, 0x61,
        0x62, 0x69, 0x66, 0x6d, 0x65, 0x7a, 0x62, 0x76, 0x68, 0x79, 0x6d, 0x65, 0x73, 0x67, 0x65, 0x72,
        0x7a, 0x65, 0x20, 0x64, 0x62, 0x61, 0x62, 0x62, 0x64, 0x71, 0x64, 0x61, 0x69, 0x77, 0x6f, 0x62,
        0x65, 0x65, 0x61, 0x62, 0x67, 0x6c, 0x65, 0x6f, 0x6e, 0x65, 0x20, 0x62, 0x73, 0x78, 0x6a, 0x20,
        0x6f, 0x70, 0x72, 0x74, 0x61, 0x69, 0x20, 0x79, 0x74, 0x20, 0x79, 0x72, 0x75, 0x6d, 0x66, 0x66,
        0x66, 0x66, 0x61, 0x69, 0x6f, 0x66, 0x61, 0x63, 0x61, 0x63, 0x69, 0x62, 0x61, 0x65, 0x6f, 0x61,
        0x61, 0x61, 0x6e, 0x62, 0x6c, 0x61, 0x20, 0x65, 0x6f, 0x61, 0x61, 0x79, 0x63, 0x6f, 0x65, 0x62,
        0x6f, 0x65, 0x20, 0x65, 0x6f, 0x65, 0x69, 0x61, 0x61, 0x78, 0x69, 0x0a, 0x69, 0x69, 0x69, 0x65,
        0x61, 0x62, 0x61, 0x74, 0x65, 0x74, 0x65, 0x69, 0x77, 0x73, 0x62, 0x6b, 0x61, 0x63, 0x20, 0x20,
        0x6b, 0x65, 0x62, 0x73, 0x6c, 0x20, 0x61, 0x74, 0x6b, 0x65, 0x0a, 0x70, 0x79, 0x61, 0x73, 0x78,
        0x65, 0x6b, 0x65, 0x20, 0x62, 0x65, 0x74, 0x64, 0x6c, 0x6c, 0x74, 0x6a, 0x65, 0x6f, 0x64, 0x6f,
        0x75, 0x74, 0x74, 0x78, 0x63, 0x75, 0x65, 0x76, 0x66, 0x74, 0x75, 0x64, 0x63, 0x6b, 0x69, 0x65,
        0x73, 0x61, 0x61, 0x74, 0x65, 0x69, 0x65, 0x63, 0x73, 0x6f, 0x20, 0x65, 0x69, 0x75, 0x20, 0x73,
        0x65, 0x20, 0x0a, 0x65, 0x61, 0x64, 0x61, 0x64, 0x69, 0x63, 0x65, 0x63, 0x69, 0x6f, 0x20, 0x6f,
        0x77, 0x61, 0x69, 0x20, 0x70, 0x65, 0x75, 0x70, 0x61, 0x77, 0x71, 0x61, 0x20, 0x65, 0x74, 0x73,
        0x74, 0x63, 0x69, 0x7a, 0x62, 0x68, 0x74, 0x6f, 0x65, 0x61, 0x75, 0x20, 0x0a, 0x73, 0x66, 0x69,
        0x66, 0x74, 0x20, 0x61, 0x73, 0x62, 0x62, 0x62, 0x61, 0x62, 0x6f, 0x20, 0x69, 0x75, 0x70, 0x62,
        0x6f, 0x76, 0x6f, 0x0a, 0x69, 0x71, 0x20, 0x65, 0x62, 0x6d, 0x6d, 0x62, 0x61, 0x61, 0x75, 0x0a,
        0x73, 0x70, 0x61, 0x6b, 0x74, 0x20, 0x62, 0x68, 0x79, 0x63, 0x76, 0x79, 0x63, 0x61, 0x65, 0x63,
        0x65, 0x6a, 0x65, 0x74, 0x6f, 0x65, 0x65, 0x6c, 0x67, 0x77, 0x62, 0x61, 0x20, 0x74, 0x65, 0x20,
        0x69, 0x71, 0x6f, 0x76, 0x20, 0x6b, 0x67, 0x76, 0x20, 0x7a, 0x6a, 0x62, 0x6c, 0x62, 0x6b, 0x6a,
        0x61, 0x79, 0x69, 0x74, 0x62, 0x6f, 0x61, 0x74, 0x75, 0x62, 0x62, 0x62, 0x69, 0x6f, 0x73, 0x61,
        0x6d, 0x61, 0x65, 0x72, 0x6b, 0x6b, 0x6d, 0x69, 0x74, 0x74, 0x61, 0x7a, 0x6d, 0x61, 0x65, 0x63,
        0x65, 0x61, 0x74, 0x61, 0x6a, 0x69, 0x6d, 0x61, 0x74, 0x20, 0x20, 0x61, 0x69, 0x65, 0x6f, 0x0a,
        0x6a, 0x6f, 0x6a, 0x63, 0x73, 0x65, 0x69, 0x6a, 0x6c, 0x75, 0x69, 0x6a, 0x20, 0x65, 0x73, 0x6b,
        0x7a, 0x7a, 0x20, 0x20, 0x65, 0x20, 0x6d, 0x20, 0x20, 0x63, 0x77, 0x69, 0x62, 0x67, 0x61, 0x66,
        0x69, 0x65, 0x61, 0x71, 0x65, 0x68, 0x61, 0x63, 0x71, 0x65, 0x74, 0x61, 0x20, 0x74, 0x62, 0x20,
        0x73, 0x70, 0x71, 0x65, 0x62, 0x65, 0x7a, 0x62,
    ]
}

fn long_code_stream() -> Vec<u8> {
    vec![
        0x78, 0x01, 0x05, 0xc1, 0x01, 0x82, 0x24, 0x49, 0x50, 0x04, 0x31, 0x99, 0x47, 0x56, 0xcf, 0x1e,
        0xf0, 0xff, 0xf7, 0x22, 0xc9, 0xe4, 0x64, 0xf2, 0x64, 0x72, 0x32, 0xf9, 0x64, 0x72, 0x32, 0x79,
        0x32, 0x39, 0x99, 0xfc, 0x64, 0x72, 0x32, 0x79, 0x32, 0x39, 0x99, 0x7c, 0x32, 0x39, 0x99, 0x3c,
        0x99, 0x9c, 0x4c, 0xfe, 0x64, 0x72, 0x32, 0x79, 0x32, 0x39, 0x99, 0x7c, 0x32, 0x39, 0x99, 0x3c,
        0x99, 0x9c, 0x4c, 0x7e, 0x32, 0x39, 0x99, 0x3c, 0x99, 0x9c, 0x4c, 0x3e, 0x99, 0x9c, 0x4c, 0x9e,
        0x4c, 0x4e, 0x26, 0xff, 0x64, 0x72, 0x32, 0x79, 0x32, 0x39, 0x99, 0x7c, 0x32, 0x39, 0x99, 0x3c,
        0x99, 0x9c, 0x4c, 0x7e, 0x32, 0x39, 0x99, 0x3c, 0x99, 0x9c, 0x4c, 0x3e, 0x99, 0x9c, 0x4c, 0x9e,
        0x4c, 0x4e, 0x26, 0x7f, 0x32, 0x39, 0x99, 0x3c, 0x99, 0x9c, 0x4c, 0x3e, 0x99, 0x9c, 0x4c, 0x9e,
        0x4c, 0x4e, 0x26, 0x3f, 0x99, 0x9c, 0x4c, 0x9e, 0x4c, 0x4e, 0x26, 0x9f, 0x4c, 0x4e, 0x26, 0x4f,
        0x26, 0x27, 0x93, 0xff, 0x64, 0x72, 0x32, 0x79, 0x32, 0x39, 0x99, 0x7c, 0x32, 0x39, 0x99, 0x3c,
        0x99, 0x9c, 0x4c, 0x7e, 0x32, 0x39, 0x99, 0x3c, 0x99, 0x9c, 0x4c, 0x3e, 0x99, 0x9c, 0x4c, 0x9e,
        0x4c, 0x4e, 0x26, 0x7f, 0x32, 0x39, 0x99, 0x3c, 0x99, 0x9c, 0x4c, 0x3e, 0x99, 0x9c, 0x4c, 0x9e,
        0x4c, 0x4e, 0x26, 0x3f, 0x99, 0x9c, 0x4c, 0x9e, 0x4c, 0x4e, 0x26, 0x9f, 0x4c, 0x4e, 0x26, 0x4f,
        0x26, 0x27, 0x93, 0x7f, 0x32, 0x39, 0x99, 0x3c, 0x99, 0x9c, 0x4c, 0x3e, 0x99, 0x9c, 0x4c, 0x9e,
        0x4c, 0x4e, 0x26, 0x3f, 0x99, 0x9c, 0x4c, 0x9e, 0x4c, 0x4e, 0x26, 0x9f, 0x4c, 0x4e, 0x26, 0x4f,
        0x26, 0x27, 0x93, 0x3f, 0x99, 0x9c, 0x4c, 0x9e, 0x4c, 0x4e, 0x26, 0x9f, 0x4c, 0x4e, 0x26, 0x4f,
        0x26, 0x27, 0x93, 0x9f, 0x4c, 0x4e, 0x26, 0x4f, 0x26, 0x27, 0x93, 0x4f, 0x26, 0x27, 0x93, 0x27,
        0x93, 0x93, 0xc9, 0xff, 0xc8, 0xe4, 0x64, 0xf2, 0x64, 0x72, 0x32, 0xf9, 0x64, 0x72, 0x32, 0x79,
        0x32, 0x39, 0x99, 0xfc, 0x64, 0x72, 0x32, 0x79, 0x32, 0x39, 0x99, 0x7c, 0x32, 0x39, 0x99, 0x3c,
        0x99, 0x9c, 0x4c, 0xfe, 0x64, 0x72, 0x32, 0x79, 0x32, 0x39, 0x99, 0x7c, 0x32, 0x39, 0x99, 0x3c,
        0x99, 0x9c, 0x4c, 0x7e, 0x32, 0x39, 0x99, 0x3c, 0x99, 0x9c, 0x4c, 0x3e, 0x99, 0x9c, 0x4c, 0x9e,
        0x4c, 0x4e, 0x26, 0xff, 0x64, 0x72, 0x32, 0x79, 0x32, 0x39, 0x99, 0x7c, 0x32, 0x39, 0x99, 0x3c,
        0x99, 0x9c, 0x4c, 0x7e, 0x32, 0x39, 0x99, 0x3c, 0x99, 0x9c, 0x4c, 0x3e, 0x99, 0x9c, 0x4c, 0x9e,
        0x4c, 0x4e, 0x26, 0x7f, 0x32, 0x39, 0x99, 0x3c, 0x99, 0x9c, 0x4c, 0x3e, 0x99, 0x9c, 0x4c, 0x9e,
        0x4c, 0x4e, 0x26, 0x3f, 0x99, 0x9c, 0x4c, 0x9e, 0x4c, 0x4e, 0x26, 0x9f, 0x4c, 0x4e, 0x26, 0x4f,
        0x26, 0x27, 0x93, 0xff, 0x64, 0x72, 0x32, 0x79, 0x32, 0x39, 0x99, 0x7c, 0x32, 0x39, 0x99, 0x3c,
        0x99, 0x9c, 0x4c, 0x7e, 0x32, 0x39, 0x99, 0x3c, 0x99, 0x9c, 0x4c, 0x3e, 0x99, 0x9c, 0x4c, 0x9e,
        0x4c, 0x4e, 0x26, 0x7f, 0x32, 0x39, 0x99, 0x3c, 0x99, 0x9c, 0x4c, 0x3e, 0x99, 0x9c, 0x4c, 0x9e,
        0x4c, 0x4e, 0x26, 0x3f, 0x99, 0x9c, 0x4c, 0x9e, 0x4c, 0x4e, 0x26, 0x9f, 0x4c, 0x4e, 0x26, 0x4f,
        0x26, 0x27, 0x93, 0x7f, 0x32, 0x39, 0x99, 0x3c, 0x99, 0x9c, 0x4c, 0x3e, 0x99, 0x9c, 0x4c, 0x9e,
        0x4c, 0x4e, 0x26, 0x3f, 0x99, 0x9c, 0x4c, 0x9e, 0x4c, 0x4e, 0x26, 0x9f, 0x4c, 0x4e, 0x26, 0x4f,
        0x26, 0x27, 0x93, 0x3f, 0x99, 0x9c, 0x4c, 0x9e, 0x4c, 0x4e, 0x26, 0x9f, 0x4c, 0x4e, 0x26, 0x4f,
        0x26, 0x27, 0x93, 0x9f, 0x4c, 0x4e, 0x26, 0x4f, 0x26, 0x27, 0x93, 0x4f, 0x26, 0x27, 0x93, 0x27,
        0x93, 0x93, 0xc9, 0xff, 0xca, 0xe4, 0x64, 0xf2, 0x64, 0x72, 0x32, 0xf9, 0x64, 0x72, 0x32, 0x79,
        0x32, 0x39, 0x99, 0xfc, 0x64, 0x72, 0x32, 0x79, 0x32, 0x39, 0x99, 0x7c, 0x32, 0x39, 0x99, 0x3c,
        0x99, 0x9c, 0x4c, 0xfe, 0x64, 0x72, 0x32, 0x79, 0x32, 0x39, 0x99, 0x7c, 0x32, 0x39, 0x99, 0x3c,
        0x99, 0x9c, 0x4c, 0x7e, 0x32, 0x39, 0x99, 0x3c, 0x99, 0x9c, 0x4c, 0x3e, 0x99, 0x9c, 0x4c, 0x9e,
        0x4c, 0x4e, 0x26, 0xff, 0x64, 0x72, 0x32, 0x79, 0x32, 0x39, 0x99, 0x7c, 0x32, 0x39, 0x99, 0x3c,
        0x99, 0x9c, 0x4c, 0x7e, 0x32, 0x39, 0x99, 0x3c, 0x99, 0x9c, 0x4c, 0x3e, 0x99, 0x9c, 0x4c, 0x9e,
        0x4c, 0x4e, 0x26, 0x7f, 0x32, 0x39, 0x99, 0x3c, 0x99, 0x9c, 0x4c, 0x3e, 0x99, 0x9c, 0x4c, 0x9e,
        0x4c, 0x4e, 0x26, 0x3f, 0x99, 0x9c, 0x4c, 0x9e, 0x4c, 0x4e, 0x26, 0x9f, 0x4c, 0x4e, 0x26, 0x4f,
        0x26, 0x27, 0x93, 0xff, 0x64, 0x72, 0x32, 0x79, 0x32, 0x39, 0x99, 0x7c, 0x32, 0x39, 0x99, 0x3c,
        0x99, 0x9c, 0x4c, 0x7e, 0x32, 0x39, 0x99, 0x3c, 0x99, 0x9c, 0x4c, 0x3e, 0x99, 0x9c, 0x4c, 0x9e,
        0x4c, 0x4e, 0x26, 0x7f, 0x32, 0x39, 0x99, 0x3c, 0x99, 0x9c, 0x4c, 0x3e, 0x99, 0x9c, 0x4c, 0x9e,
        0x4c, 0x4e, 0x26, 0x3f, 0x99, 0x9c, 0x4c, 0x9e, 0x4c, 0x4e, 0x26, 0x9f, 0x4c, 0x4e, 0x26, 0x4f,
        0x26, 0x27, 0x93, 0x7f, 0x32, 0x39, 0x99, 0x3c, 0x99, 0x9c, 0x4c, 0x3e, 0x99, 0x9c, 0x4c, 0x9e,
        0x4c, 0x4e, 0x26, 0x3f, 0x99, 0x9c, 0x4c, 0x9e, 0x4c, 0x4e, 0x26, 0x9f, 0x4c, 0x4e, 0x26, 0x4f,
        0x26, 0x27, 0x93, 0x3f, 0x99, 0x9c, 0x4c, 0x9e, 0x4c, 0x4e, 0x26, 0x9f, 0x4c, 0x4e, 0x26, 0x4f,
        0x26, 0x27, 0x93, 0x9f, 0x4c, 0x4e, 0x26, 0x4f, 0x26, 0x27, 0x93, 0x4f, 0x26, 0x27, 0x93, 0x27,
        0x93, 0x93, 0xc9, 0xff, 0xc8, 0xe4, 0x64, 0xf2, 0x64, 0x72, 0x32, 0xf9, 0x64, 0x72, 0x32, 0x79,
        0x32, 0x39, 0x99, 0xfc, 0x64, 0x72, 0x32, 0x79, 0x32, 0x39, 0x99, 0x7c, 0x32, 0x39, 0x99, 0x3c,
        0x99, 0x9c, 0x4c, 0xfe, 0x64, 0x72, 0x32, 0x79, 0x32, 0x39, 0x99, 0x7c, 0x32, 0x39, 0x99, 0x3c,
        0x99, 0x9c, 0x4c, 0x7e, 0x32, 0x39, 0x99, 0x3c, 0x99, 0x9c, 0x4c, 0x3e, 0x99, 0x9c, 0x4c, 0x9e,
        0x4c, 0x4e, 0x26, 0xff, 0x64, 0x72, 0x32, 0x79, 0x32, 0x39, 0x99, 0x7c, 0x32, 0x39, 0x99, 0x3c,
        0x99, 0x9c, 0x4c, 0x7e, 0x32, 0x39, 0x99, 0x3c, 0x99, 0x9c, 0x4c, 0x3e, 0x99, 0x9c, 0x4c, 0x9e,
        0x4c, 0x4e, 0x26, 0x7f, 0x32, 0x39, 0x99, 0x3c, 0x99, 0x9c, 0x4c, 0x3e, 0x99, 0x9c, 0x4c, 0x9e,
        0x4c, 0x4e, 0x26, 0x3f, 0x99, 0x9c, 0x4c, 0x9e, 0x4c, 0x4e, 0x26, 0x9f, 0x4c, 0x4e, 0x26, 0x4f,
        0x26, 0x27, 0x93, 0xff, 0x64, 0x72, 0x32, 0x79, 0x32, 0x39, 0x99, 0x7c, 0x32, 0x39, 0x99, 0x3c,
        0x99, 0x9c, 0x4c, 0x7e, 0x32, 0x39, 0x99, 0x3c, 0x99, 0x9c, 0x4c, 0x3e, 0x99, 0x9c, 0x4c, 0x9e,
        0x4c, 0x4e, 0x26, 0x7f, 0x32, 0x39, 0x99, 0x3c, 0x99, 0x9c, 0x4c, 0x3e, 0x99, 0x9c, 0x4c, 0x9e,
        0x4c, 0x4e, 0x26, 0x3f, 0x99, 0x9c, 0x4c, 0x9e, 0x4c, 0x4e, 0x26, 0x9f, 0x4c, 0x4e, 0x26, 0x4f,
        0x26, 0x27, 0x93, 0x7f, 0x32, 0x39, 0x99, 0x3c, 0x99, 0x9c, 0x4c, 0x3e, 0x99, 0x9c, 0x4c, 0x9e,
        0x4c, 0x4e, 0x26, 0x3f, 0x99, 0x9c, 0x4c, 0x9e, 0x4c, 0x4e, 0x26, 0x9f, 0x4c, 0x4e, 0x26, 0x4f,
        0x26, 0x27, 0x93, 0x3f, 0x99, 0x9c, 0x4c, 0x9e, 0x4c, 0x4e, 0x26, 0x9f, 0x4c, 0x4e, 0x26, 0x4f,
        0x26, 0x27, 0x93, 0x9f, 0x4c, 0x4e, 0x26, 0x4f, 0x26, 0x27, 0x93, 0x4f, 0x26, 0x27, 0x93, 0x27,
        0x93, 0x93, 0xc9, 0xff, 0xfd, 0x3f, 0xbf, 0x70, 0x10, 0x00,
    ]
}

#[test]
fn test_decompress_empty() {
    let data = b"";
    let result = decompress(data, 1, None);
    assert!(result.is_ok());
    assert!(result.unwrap().output.is_empty());
}

#[test]
fn test_decompress_raw_empty() {
    let data = b"";
    let result = decompress_raw(data);
    assert!(result.is_err());
}

#[test]
fn test_decompress_zlib_header() {
    let zlib_header = [0x78, 0x01];
    let result = decompress(&zlib_header, 1, None);
    assert!(result.is_err());
}

#[test]
fn fixed_block_from_zlib() {
    // zlib.compress(b"hello hello hello hello hello")
    let stream = [
        0x78, 0x9c, 0xcb, 0x48, 0xcd, 0xc9, 0xc9, 0x57, 0xc8, 0xc0, 0x4e, 0x02, 0x00, 0xa3, 0x10,
        0x0a, 0xe5,
    ];
    let out = decompress(&stream, 1, None).unwrap();
    assert_eq!(out.output, b"hello hello hello hello hello");
    assert_eq!(out.bytes_read, 17);
    assert_eq!(out.bytes_written, 29);
    let out = decompress_to_buffer(&stream, 1).unwrap();
    assert_eq!(out.output, b"hello hello hello hello hello");
    assert_eq!(out.bytes_written, 29);
    assert_eq!(decompress_raw(&stream[2..13]).unwrap(), b"hello hello hello hello hello");
}

#[test]
fn stored_block_from_zlib() {
    let stream = [
        0x78, 0x01, 0x01, 0x0d, 0x00, 0xf2, 0xff, 0x48, 0x65, 0x6c, 0x6c, 0x6f, 0x2c, 0x20, 0x57,
        0x6f, 0x72, 0x6c, 0x64, 0x21, 0x1f, 0x9e, 0x04, 0x6a,
    ];
    assert_eq!(decompress(&stream, 1, None).unwrap().output, b"Hello, World!");
}

#[test]
fn dynamic_block_from_zlib() {
    let out = decompress(&dynamic_stream(), 1, None).unwrap();
    assert_eq!(out.output, dynamic_data());
}

#[test]
fn dynamic_block_with_long_codes_from_zlib() {
    let out = decompress(&long_code_stream(), 1, None).unwrap();
    assert_eq!(out.output, ruler(4096));
}

#[test]
fn stream_from_a_position() {
    let mut padded = vec![0xAA, 0xBB];
    padded.extend_from_slice(&[0x78, 0x9C, 0x03, 0x00, 0x00, 0x00, 0x00, 0x01]);
    let out = decompress(&padded, 3, Some(-5)).unwrap();
    assert!(out.output.is_empty());
    assert_eq!(out.bytes_read, 8);
    assert_eq!(decompress(&padded, 0, None).err(), Some(InflateError::BadParam));
    assert_eq!(decompress(&padded, 11, None).err(), Some(InflateError::BadParam));
    assert_eq!(decompress(&padded, 1, None).err(), Some(InflateError::BadZlibHeader));
}

#[test]
fn errors_of_zlib_streams() {
    let good = [0x78u8, 0x9C, 0x4b, 0x04, 0x00, 0x00, 0x62, 0x00, 0x62];
    assert_eq!(decompress(&good, 1, None).unwrap().output, b"a");
    // A wrong checksum.
    let mut bad = good;
    bad[8] = 0x63;
    assert_eq!(decompress(&bad, 1, None).err(), Some(InflateError::Adler32Mismatch));
    // A truncated checksum, a truncated body: at one go both count as malformed.
    assert_eq!(decompress(&good[..8], 1, None).err(), Some(InflateError::DecompressionFailed));
    assert_eq!(decompress(&good[..3], 1, None).err(), Some(InflateError::DecompressionFailed));
    // Header: a method other than 8, a window above 32K, a bad check, a dictionary.
    assert_eq!(decompress(&[0x77, 0x9C, 0x03, 0x00], 1, None).err(), Some(InflateError::BadZlibHeader));
    assert_eq!(decompress(&[0x88, 0x1C, 0x03, 0x00], 1, None).err(), Some(InflateError::BadZlibHeader));
    assert_eq!(decompress(&[0x78, 0x9D, 0x03, 0x00], 1, None).err(), Some(InflateError::BadZlibHeader));
    assert_eq!(decompress(&[0x78, 0xBB, 0x03, 0x00], 1, None).err(), Some(InflateError::BadZlibHeader));
}

#[test]
fn errors_of_raw_streams() {
    // Block type 3.
    assert_eq!(decompress_raw(&[0x07]).err(), Some(InflateError::InvalidBlockType));
    // A stored block whose length and complement disagree.
    assert_eq!(
        decompress_raw(&[0x01, 0x01, 0x00, 0xFF, 0xFF, b'a']).err(),
        Some(InflateError::DecompressionFailed)
    );
    // A stored block that promises more bytes than follow.
    assert_eq!(
        decompress_raw(&[0x01, 0x02, 0x00, 0xFD, 0xFF, b'a']).err(),
        Some(InflateError::DecompressionFailed)
    );
    // A match that reaches back before the start of the output:
    // fixed block, length symbol 257, distance symbol 0, end of block.
    assert_eq!(
        decompress_raw(&[0x03, 0x02, 0x00, 0x00]).err(),
        Some(InflateError::DecompressionFailed)
    );
    // The literal/length symbols 286 and 287 stand for nothing.
    // Fixed block, code 11000110 (symbol 286) read first bit first.
    assert_eq!(
        decompress_raw(&[0b0001_1011, 0b0000_0011, 0x00, 0x00]).err(),
        Some(InflateError::InvalidCode)
    );
}

#[test]
fn decoder_reports_missing_input_as_a_status() {
    let mut decoder = InflateDecoder::new();
    let mut output = vec![1, 2, 3];
    let zlib = InflateFlags { parse_zlib_header: true, ..InflateFlags::default() };
    let good = [0x78u8, 0x9C, 0x4b, 0x04, 0x00, 0x00, 0x62, 0x00, 0x62];
    let r = decoder.decompress(&good[..4], &mut output, zlib);
    assert_eq!(r, Ok((InflateStatus::NeedsMoreInput, 0, 0)));
    assert_eq!(output, vec![1, 2, 3]);
    assert!(decoder.get_output().is_empty());
    let r = decoder.decompress(&[], &mut output, zlib);
    assert_eq!(r, Ok((InflateStatus::NeedsMoreInput, 0, 0)));
    let r = decoder.decompress(&good, &mut output, zlib);
    assert_eq!(r, Ok((InflateStatus::Done, 1, 0)));
    assert_eq!(output, b"a");
    assert_eq!(decoder.get_output(), b"a");
    assert!(decoder.get_output().is_empty());
    let r = decoder.decompress(&good[2..5], &mut output, InflateFlags::default());
    assert_eq!(r, Ok((InflateStatus::Done, 1, 0)));
    let r = decoder.decompress(&[0x07], &mut output, InflateFlags::default());
    assert_eq!(r, Err(InflateError::InvalidBlockType));
    assert_eq!(output, b"a");
    assert_eq!(InflateError::InvalidBlockType.message(), "Invalid block type");
    assert_eq!(InflateError::NeedMoreInput.message(), "Need more input");
}

#[test]
fn several_blocks_in_one_stream() {
    // A stored block that is not final, then a fixed block that is.
    let stream = [0x00, 0x02, 0x00, 0xFD, 0xFF, b'h', b'i', 0x4b, 0x04, 0x00];
    assert_eq!(decompress_raw(&stream).unwrap(), b"hia");
    // Bytes after the final block are not read.
    let stream = [0x4b, 0x04, 0x00, 0xFF, 0xFF];
    assert_eq!(decompress_raw(&stream).unwrap(), b"a");
}
