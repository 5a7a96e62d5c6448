use b20crunch::b20;
use b20crunch::kernel::{f1600, swap_bytes, TailKernel};
use b20crunch::paired;

/// Deterministic 128-bit xorshift-style generator for test inputs.
struct Rng(u128);
impl Rng {
    fn next(&mut self) -> u128 {
        // xorshift128 on the raw state; quality is irrelevant, coverage is
        self.0 ^= self.0 << 15;
        self.0 ^= self.0 >> 43;
        self.0 ^= self.0 << 29;
        self.0
    }
}

fn window_reference(deployer: &[u8; 20], salt: u128) -> u128 {
    // b20::tail is tiny-keccak; extend to 16 bytes via the same digest
    let mut pre = [0u8; 64];
    pre[12..32].copy_from_slice(deployer);
    pre[32..].copy_from_slice(&b20::salt_bytes(salt));
    let h = b20::keccak256(&pre);
    u128::from_be_bytes(h[..16].try_into().unwrap())
}

#[test]
fn kernel_matches_tiny_keccak_reference() {
    let mut rng = Rng(0x8f0c_35bd_9a17_e2d4_6b01_44c8_7d5a_130f);
    for case in 0..2000 {
        let mut deployer = [0u8; 20];
        for b in deployer.iter_mut() {
            *b = rng.next() as u8;
        }
        let salt = match case % 5 {
            0 => 0,
            1 => u64::MAX as u128,
            2 => u128::MAX,
            3 => rng.next() & 0xFFFF_FFFF, // small realistic salts
            _ => rng.next(),
        };
        let kernel = TailKernel::new(&deployer);
        let expect = window_reference(&deployer, salt);
        assert_eq!(kernel.window(salt), expect, "scalar, salt {salt}");
    }
}

#[test]
fn window2_agrees_with_window() {
    let mut rng = Rng(0x1d84_a2f9_00c3_57be_e6f2_8b1d_4a90_c375);
    for _ in 0..2000 {
        let mut deployer = [0u8; 20];
        for b in deployer.iter_mut() {
            *b = rng.next() as u8;
        }
        let kernel = TailKernel::new(&deployer);
        let (sa, sb) = (rng.next(), rng.next());
        let (wa, wb) = kernel.window2(sa, sb);
        assert_eq!(wa, kernel.window(sa));
        assert_eq!(wb, kernel.window(sb));
        assert_eq!((wa, wb), paired::window2(kernel.template(), sa, sb));
    }
}

#[test]
fn window_top_bits_are_the_tail() {
    let deployer = b20::parse_address("0x1111111111111111111111111111111111111111").unwrap();
    let kernel = TailKernel::new(&deployer);
    for salt in [0u128, 1, 42, 1 << 100] {
        let tail = b20::tail(&deployer, salt);
        let window = kernel.window(salt);
        assert_eq!(&window.to_be_bytes()[..9], &tail);
    }
}

#[test]
fn permutation_of_the_zero_state() {
    let mut a = [0u64; 25];
    f1600(&mut a);
    assert_eq!(a[0], 0xf125_8f79_40e1_dde7);
    assert_eq!(a[1], 0x84d5_ccf9_33c0_478a);
    assert_eq!(a[24], 0xeaf1_ff7b_5cec_a249);
}

#[test]
fn template_holds_the_deployer_and_the_padding() {
    let mut deployer = [0u8; 20];
    for (i, b) in deployer.iter_mut().enumerate() {
        *b = i as u8 + 1;
    }
    let kernel = TailKernel::new(&deployer);
    let t = kernel.template();
    assert_eq!(t[0], 0);
    assert_eq!(t[1], u64::from_le_bytes([0, 0, 0, 0, 1, 2, 3, 4]));
    assert_eq!(t[2], u64::from_le_bytes([5, 6, 7, 8, 9, 10, 11, 12]));
    assert_eq!(t[3], u64::from_le_bytes([13, 14, 15, 16, 17, 18, 19, 20]));
    assert_eq!((t[6], t[7]), (0, 0));
    assert_eq!(t[8], 1);
    assert_eq!(t[16], 1 << 63);
    assert_eq!(
        TailKernel::salt_lanes(0x0102_0304_0506_0708_090a_0b0c_0d0e_0f10),
        (0x0807_0605_0403_0201, 0x100f_0e0d_0c0b_0a09)
    );
    assert_eq!(swap_bytes(0x0102_0304_0506_0708), 0x0807_0605_0403_0201);
}

#[test]
fn different_states_stay_different() {
    let mut zero = [0u64; 25];
    f1600(&mut zero);
    let mut seen = vec![zero];
    for lane in 0..25 {
        for bit in [0, 31, 63] {
            let mut a = [0u64; 25];
            a[lane] = 1 << bit;
            f1600(&mut a);
            assert!(!seen.contains(&a));
            seen.push(a);
        }
    }
}
