use cupcake::FV;

fn ramp(n: usize) -> Vec<u8> {
    let mut v = vec![0u8; n];
    for i in 0..n {
        v[i] = i as u8;
    }
    v
}

fn reverse_ramp(n: usize) -> Vec<u8> {
    let mut w: Vec<u8> = vec![];
    for i in 0..n {
        w.push((n - i) as u8);
    }
    w
}

fn constant(n: usize, c: u8) -> Vec<u8> {
    vec![c; n]
}

#[test]
fn test_sk_encrypt_toy_param_scalar() {
    let fv = FV::new(16, 65537);

    let sk = fv.generate_key();

    let v = ramp(fv.n);
    let ct = fv.encrypt_sk(&v, &sk);

    let pt_actual = fv.decrypt(&ct, &sk);

    assert_eq!(v, pt_actual);
}

#[test]
fn test_sk_encrypt_scalar() {
    let fv = FV::default_2048();

    let sk = fv.generate_key();

    let v = ramp(fv.n);
    let ct = fv.encrypt_sk(&v, &sk);

    let pt_actual = fv.decrypt(&ct, &sk);

    assert_eq!(v, pt_actual);
}

#[test]
fn test_encrypt_default_param_scalar() {
    let fv = FV::default_2048();

    let (pk, sk) = fv.generate_keypair();

    let v = ramp(fv.n);
    let ct = fv.encrypt(&v, &pk);

    let pt_actual = fv.decrypt(&ct, &sk);

    assert_eq!(v, pt_actual);
}

#[test]
fn test_rerandomize_scalar() {
    let fv = FV::default_2048();

    let (pk, sk) = fv.generate_keypair();

    let v = ramp(fv.n);
    let mut ct = fv.encrypt(&v, &pk);

    fv.rerandomize(&mut ct, &pk);

    let pt_actual = fv.decrypt(&ct, &sk);

    assert_eq!(v, pt_actual);
}

#[test]
fn test_add_scalar() {
    let fv = FV::default_2048();
    let (pk, sk) = fv.generate_keypair();

    let v = ramp(fv.n);
    let w = reverse_ramp(fv.n);
    let vplusw = constant(fv.n, fv.n as u8);

    let mut ctv = fv.encrypt_sk(&v, &sk);
    let ctw = fv.encrypt(&w, &pk);

    fv.add_inplace(&mut ctv, &ctw);
    let pt_after_add = fv.decrypt(&ctv, &sk);
    assert_eq!(pt_after_add, vplusw);
}

#[test]
fn test_add_plain_scalar() {
    let fv = FV::default_2048();
    let (pk, sk) = fv.generate_keypair();

    let v = ramp(fv.n);
    let w = reverse_ramp(fv.n);
    let vplusw = constant(fv.n, fv.n as u8);

    let mut ct = fv.encrypt(&v, &pk);

    fv.add_plain_inplace(&mut ct, &w);

    let pt_after_add = fv.decrypt(&ct, &sk);

    assert_eq!(pt_after_add, vplusw);
}

#[test]
fn test_sk_encrypt() {
    let fv = FV::new(16, 12289);

    let sk = fv.generate_key();

    let v = ramp(fv.n);
    let ct = fv.encrypt_sk(&v, &sk);

    let pt_actual = fv.decrypt(&ct, &sk);

    assert_eq!(v, pt_actual);
}

#[test]
fn test_encrypt_toy_param() {
    let fv = FV::new(4, 65537);

    let (pk, sk) = fv.generate_keypair();

    let v = ramp(fv.n);
    for _ in 0..10 {
        let ct = fv.encrypt(&v, &pk);
        let pt_actual = fv.decrypt(&ct, &sk);
        assert_eq!(v, pt_actual);
    }
}

#[test]
fn test_encrypt_nonntt_toy_param() {
    let fv = FV::new(4, 1000000);

    let (pk, sk) = fv.generate_keypair();

    let v = ramp(fv.n);
    for _ in 0..10 {
        let ct = fv.encrypt(&v, &pk);
        let pt_actual = fv.decrypt(&ct, &sk);
        assert_eq!(v, pt_actual);
    }
}

#[test]
fn test_encrypt_large_param() {
    let fv = FV::default_2048();

    let (pk, sk) = fv.generate_keypair();

    let v = ramp(fv.n);
    let ct = fv.encrypt(&v, &pk);

    let pt_actual = fv.decrypt(&ct, &sk);

    assert_eq!(v, pt_actual);
}

#[test]
fn test_rerandomize() {
    let fv = FV::default_2048();

    let (pk, sk) = fv.generate_keypair();

    let v = ramp(fv.n);
    let mut ct = fv.encrypt(&v, &pk);

    fv.rerandomize(&mut ct, &pk);

    let pt_actual = fv.decrypt(&ct, &sk);

    assert_eq!(v, pt_actual);
}

#[test]
fn test_add() {
    let fv = FV::new(16, 12289);

    let sk = fv.generate_key();

    let v = ramp(fv.n);
    let w = reverse_ramp(fv.n);
    let vplusw = constant(fv.n, fv.n as u8);

    let mut ctv = fv.encrypt_sk(&v, &sk);
    let ctw = fv.encrypt_sk(&w, &sk);

    fv.add_inplace(&mut ctv, &ctw);

    let pt_after_add = fv.decrypt(&ctv, &sk);

    assert_eq!(pt_after_add, vplusw);
}

#[test]
fn test_add_plain() {
    let fv = FV::new(16, 12289);
    let sk = fv.generate_key();

    let v = ramp(fv.n);
    let w = reverse_ramp(fv.n);
    let vplusw = constant(fv.n, fv.n as u8);

    let mut ct = fv.encrypt_sk(&v, &sk);

    fv.add_plain_inplace(&mut ct, &w);

    let pt_after_add = fv.decrypt(&ct, &sk);

    assert_eq!(pt_after_add, vplusw);
}
