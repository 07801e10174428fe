[package]
name = "divtokens"
version = "0.1.0"
edition = "2021"
publish = false

[dependencies]
ark-bls12-381 = "=0.3.0"
ark-crypto-primitives = "=0.3.0"
ark-ec = "=0.3.0"
ark-ed-on-bls12-381 = { version = "=0.3.0", features = ["r1cs"] }
ark-ff = "=0.3.0"
ark-groth16 = "=0.3.0"
ark-r1cs-std = "=0.3.1"
ark-relations = "=0.3.0"
ark-serialize = "=0.3.0"
ark-sponge = "=0.3.0"
ark-std = "=0.3.0"
arkworks-native-gadgets = "=1.2.0"
arkworks-r1cs-gadgets = "=1.2.0"
arkworks-utils = { version = "=1.0.1", features = ["poseidon_bls381_x3_3", "poseidon_bls381_x5_3"] }
bit-vec = "=0.6.3"
blake3 = "=1.8.7"
bloomfilter = "=1.0.16"
challenge-bypass-ristretto = { version = "=2.1.0", features = ["serde_base64"] }
derivative = "=2.2.0"
parking_lot = "=0.12.5"
rand = "=0.8.8"
serde = { version = "=1.0.229", features = ["derive"] }
sha2 = "=0.10.9"
